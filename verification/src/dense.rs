//! Dense evolver for Conway's Game of Life on a finite torus.
//!
//! The grid is a bit array of exactly `w * h` bits, packed row-major, eight
//! cells per byte, least-significant bit first within each byte. The width is
//! a multiple of eight so rows are byte-aligned and no trailing bits exist.
//! All coordinate arithmetic wraps modulo the width and height.

use vstd::prelude::*;
use vstd::arithmetic::div_mod::lemma_fundamental_div_mod;
use vstd::arithmetic::div_mod::lemma_fundamental_div_mod_converse;

verus! {

use crate::codec::pattern_cells;
use crate::rng::xorshift_iter;
use crate::rng::Rng;
use crate::codec::pset;
use crate::codec::lemma_pset_contains;
use crate::codec::lemma_pset_push_take;

/// Whether bit `k` of byte `b` is set.
pub open spec fn byte_bit(b: u8, k: u8) -> bool {
    (b >> k) & 1 == 1
}

/// Whether the cell at linear index `idx` of a bit-packed cell array is live.
pub open spec fn bit_at(cells: Seq<u8>, idx: int) -> bool {
    byte_bit(cells[idx / 8], (idx % 8) as u8)
}

/// Bit-packed toroidal grid of `w * h` cells.
pub struct DenseGrid {
    w: usize,
    h: usize,
    cells: Vec<u8>,
}

/// 1 if the cell at `(x, y)` is live, else 0.
pub open spec fn dind(g: DenseGrid, x: int, y: int) -> int {
    if g.live(x, y) {
        1
    } else {
        0
    }
}

/// Number of live cells among the eight toroidal neighbors of `(x, y)`:
/// coordinates wrap modulo the width and height.
pub open spec fn torus_nc(g: DenseGrid, x: int, y: int) -> int {
    let w = g.spec_width();
    let h = g.spec_height();
    let xl = (x - 1 + w) % w;
    let xr = (x + 1) % w;
    let yu = (y - 1 + h) % h;
    let yd = (y + 1) % h;
    dind(g, xl, yu) + dind(g, x, yu) + dind(g, xr, yu) + dind(g, xl, y) + dind(g, xr, y) + dind(
        g,
        xl,
        yd,
    ) + dind(g, x, yd) + dind(g, xr, yd)
}

/// The B3/S23 rule on the torus: `(x, y)` is alive after one generation iff
/// it has exactly three live neighbors, or it is alive and has exactly two.
pub open spec fn dense_rule(g: DenseGrid, x: int, y: int) -> bool {
    torus_nc(g, x, y) == 3 || (g.live(x, y) && torus_nc(g, x, y) == 2)
}

/// A linear row-major index is within bounds.
proof fn lemma_rowmajor_bounds(w: int, h: int, x: int, y: int)
    requires
        0 < w,
        0 <= x < w,
        0 <= y < h,
    ensures
        0 <= y * w + x < w * h,
{
    assert(0 <= y * w + x < w * h) by (nonlinear_arith)
        requires
            0 < w,
            0 <= x < w,
            0 <= y < h,
    ;
}

/// Row-major indexing is injective on in-range coordinates.
proof fn lemma_rowmajor_inj(w: int, x1: int, y1: int, x2: int, y2: int)
    requires
        0 < w,
        0 <= x1 < w,
        0 <= x2 < w,
        y1 * w + x1 == y2 * w + x2,
    ensures
        x1 == x2 && y1 == y2,
{
    let idx = y1 * w + x1;
    lemma_fundamental_div_mod_converse(idx, w, y1, x1);
    lemma_fundamental_div_mod_converse(idx, w, y2, x2);
}

/// A cell index below `8 * len` lies in byte `idx / 8`, which is in range.
proof fn lemma_byte_index(len: int, idx: int)
    requires
        0 <= idx < 8 * len,
    ensures
        0 <= idx / 8 < len,
        0 <= idx % 8 < 8,
        idx == 8 * (idx / 8) + idx % 8,
{
    assert(0 <= idx / 8 < len && 0 <= idx % 8 < 8 && idx == 8 * (idx / 8) + idx % 8)
        by (nonlinear_arith)
        requires
            0 <= idx < 8 * len,
    ;
}

impl DenseGrid {
    /// Width in cells.
    pub closed spec fn spec_width(self) -> int {
        self.w as int
    }

    /// Height in cells.
    pub closed spec fn spec_height(self) -> int {
        self.h as int
    }

    /// The representation invariant: byte-aligned rows, a bounded area, and
    /// a cell array of exactly `w * h` bits. Constructors establish it and
    /// every method preserves it.
    pub closed spec fn wf(self) -> bool {
        &&& self.w % 8 == 0
        &&& 8 <= self.w
        &&& 1 <= self.h
        &&& self.w * self.h <= 0x1000_0000
        &&& self.cells@.len() * 8 == self.w * self.h
    }

    /// Whether the cell at `(x, y)` is live; positions outside the grid hold
    /// nothing.
    pub closed spec fn live(self, x: int, y: int) -> bool {
        &&& 0 <= x < self.w
        &&& 0 <= y < self.h
        &&& bit_at(self.cells@, y * (self.w as int) + x)
    }

    /// Width in cells.
    pub fn width(&self) -> (r: usize)
        requires
            self.wf(),
        ensures
            r == self.spec_width(),
            8 <= r && r % 8 == 0,
            r as int * self.spec_height() <= 0x1000_0000,
            r <= 0x1000_0000,
    {
        proof {
            assert(self.w <= 0x1000_0000) by (nonlinear_arith)
                requires
                    self.w * self.h <= 0x1000_0000,
                    1 <= self.h,
                    0 <= self.w,
            ;
        }
        self.w
    }

    /// Height in cells.
    pub fn height(&self) -> (r: usize)
        requires
            self.wf(),
        ensures
            r == self.spec_height(),
            1 <= r,
            r <= 0x1000_0000,
    {
        proof {
            assert(self.h <= 0x1000_0000) by (nonlinear_arith)
                requires
                    self.w * self.h <= 0x1000_0000,
                    8 <= self.w,
                    0 <= self.h,
            ;
        }
        self.h
    }

    /// Create an all-dead grid of `w` by `h` cells. The width must be a
    /// multiple of eight so rows are byte-aligned, and the area is bounded so
    /// index arithmetic and populations stay within machine integers.
    pub fn new(w: usize, h: usize) -> (r: Self)
        requires
            w % 8 == 0,
            8 <= w,
            1 <= h,
            w * h <= 0x1000_0000,
        ensures
            r.wf(),
            r.spec_width() == w,
            r.spec_height() == h,
            forall|x: int, y: int| !r.live(x, y),
    {
        proof {
            let k = w as int / 8;
            lemma_fundamental_div_mod(w as int, 8);
            assert(w == 8 * k);
            assert((w as int) * (h as int) == 8 * (k * (h as int))) by (nonlinear_arith)
                requires
                    w == 8 * k,
            ;
            lemma_fundamental_div_mod_converse(
                (w as int) * (h as int),
                8,
                k * (h as int),
                0,
            );
            assert((w as int) * (h as int) / 8 == k * (h as int));
            assert((k * (h as int)) * 8 == (w as int) * (h as int)) by (nonlinear_arith)
                requires
                    w == 8 * k,
            ;
        }
        let n = w * h / 8;
        let mut cells: Vec<u8> = Vec::new();
        let mut i: usize = 0;
        while i < n
            invariant
                i <= n,
                cells@.len() == i,
                forall|k: int| 0 <= k < i ==> cells@[k] == 0u8,
            decreases n - i,
        {
            cells.push(0u8);
            i += 1;
        }
        let r = DenseGrid { w, h, cells };
        proof {
            assert forall|x: int, y: int| !r.live(x, y) by {
                if r.live(x, y) {
                    lemma_rowmajor_bounds(w as int, h as int, x, y);
                    lemma_byte_index(r.cells@.len() as int, y * (w as int) + x);
                    let b = r.cells@[(y * (w as int) + x) / 8];
                    assert(b == 0u8);
                    let k = ((y * (w as int) + x) % 8) as u8;
                    assert(!byte_bit(0u8, k)) by (bit_vector);
                }
            }
        }
        r
    }

    /// Whether the cell at `(x, y)` is live.
    pub fn get(&self, x: usize, y: usize) -> (r: bool)
        requires
            self.wf(),
            x < self.spec_width(),
            y < self.spec_height(),
        ensures
            r == self.live(x as int, y as int),
    {
        proof {
            lemma_rowmajor_bounds(self.w as int, self.h as int, x as int, y as int);
            lemma_byte_index(self.cells@.len() as int, y * (self.w as int) + x);
        }
        let idx = y * self.w + x;
        let byte = self.cells[idx / 8];
        let sh = (idx % 8) as u8;
        (byte >> sh) & 1 == 1
    }

    /// Make the cell at `(x, y)` live; every other cell keeps its state.
    pub fn set(&mut self, x: usize, y: usize)
        requires
            old(self).wf(),
            x < old(self).spec_width(),
            y < old(self).spec_height(),
        ensures
            final(self).wf(),
            final(self).spec_width() == old(self).spec_width(),
            final(self).spec_height() == old(self).spec_height(),
            forall|i: int, j: int|
                final(self).live(i, j) == (old(self).live(i, j) || (i == x && j == y)),
    {
        proof {
            lemma_rowmajor_bounds(self.w as int, self.h as int, x as int, y as int);
            lemma_byte_index(self.cells@.len() as int, y * (self.w as int) + x);
        }
        let idx = y * self.w + x;
        let bi = idx / 8;
        let sh = (idx % 8) as u8;
        let b = self.cells[bi];
        self.cells.set(bi, b | (1u8 << sh));
        proof {
            let w = old(self).w as int;
            let h = old(self).h as int;
            assert forall|i: int, j: int|
                self.live(i, j) == (old(self).live(i, j) || (i == x && j == y)) by {
                if 0 <= i < w && 0 <= j < h {
                    let idx2 = j * w + i;
                    lemma_rowmajor_bounds(w, h, i, j);
                    lemma_byte_index(self.cells@.len() as int, idx2);
                    let sh2 = (idx2 % 8) as u8;
                    if idx2 / 8 == bi {
                        assert(byte_bit(b | (1u8 << sh), sh2) == (byte_bit(b, sh2) || sh2 == sh))
                            by (bit_vector)
                            requires
                                sh < 8 && sh2 < 8,
                        ;
                        if sh2 == sh {
                            assert(idx2 == idx) by {
                                assert(idx2 == 8 * (idx2 / 8) + idx2 % 8);
                                assert(idx as int == 8 * (idx as int / 8) + idx as int % 8);
                            }
                            lemma_rowmajor_inj(w, i, j, x as int, y as int);
                        } else {
                            assert(idx2 != idx);
                        }
                    } else {
                        assert(self.cells@[idx2 / 8] == old(self).cells@[idx2 / 8]);
                        if i == x && j == y {
                            assert(idx2 == idx);
                        }
                    }
                } else {
                    assert(!self.live(i, j) && !old(self).live(i, j));
                }
            }
        }
    }

    /// Kill every cell.
    pub fn clear(&mut self)
        requires
            old(self).wf(),
        ensures
            final(self).wf(),
            final(self).spec_width() == old(self).spec_width(),
            final(self).spec_height() == old(self).spec_height(),
            forall|i: int, j: int| !final(self).live(i, j),
    {
        let ghost w0 = self.w;
        let ghost h0 = self.h;
        let n = self.cells.len();
        let mut i: usize = 0;
        while i < n
            invariant
                self.w == w0,
                self.h == h0,
                n == self.cells@.len(),
                i <= n,
                forall|k: int| 0 <= k < i ==> self.cells@[k] == 0u8,
            decreases n - i,
        {
            self.cells.set(i, 0u8);
            i += 1;
        }
        proof {
            assert forall|i2: int, j2: int| !self.live(i2, j2) by {
                if self.live(i2, j2) {
                    let w = self.w as int;
                    lemma_rowmajor_bounds(w, self.h as int, i2, j2);
                    lemma_byte_index(self.cells@.len() as int, j2 * w + i2);
                    let k = ((j2 * w + i2) % 8) as u8;
                    assert(!byte_bit(0u8, k)) by (bit_vector);
                }
            }
        }
    }
}

/// Count live cells among the eight toroidal neighbors of `(x, y)`.
pub fn count_neighbors(grid: &DenseGrid, x: usize, y: usize) -> (n: u8)
    requires
        grid.wf(),
        x < grid.spec_width(),
        y < grid.spec_height(),
    ensures
        n as int == torus_nc(*grid, x as int, y as int),
{
    let w = grid.width();
    let h = grid.height();
    let xl = (x + w - 1) % w;
    let xr = (x + 1) % w;
    let yu = (y + h - 1) % h;
    let yd = (y + 1) % h;
    let mut n: u8 = 0;
    if grid.get(xl, yu) {
        n += 1;
    }
    if grid.get(x, yu) {
        n += 1;
    }
    if grid.get(xr, yu) {
        n += 1;
    }
    if grid.get(xl, y) {
        n += 1;
    }
    if grid.get(xr, y) {
        n += 1;
    }
    if grid.get(xl, yd) {
        n += 1;
    }
    if grid.get(x, yd) {
        n += 1;
    }
    if grid.get(xr, yd) {
        n += 1;
    }
    n
}

/// Advance one generation: read from `current`, write into `next`. The
/// scratch buffer is fully overwritten with the image of `current` under the
/// B3/S23 rule, and `current` itself, held by a shared borrow, is untouched.
#[verifier::loop_isolation(false)]
pub fn step(current: &DenseGrid, next: &mut DenseGrid)
    requires
        current.wf(),
        old(next).wf(),
        old(next).spec_width() == current.spec_width(),
        old(next).spec_height() == current.spec_height(),
    ensures
        final(next).wf(),
        final(next).spec_width() == current.spec_width(),
        final(next).spec_height() == current.spec_height(),
        forall|x: int, y: int|
            #![trigger final(next).live(x, y)]
            final(next).live(x, y) == (0 <= x < current.spec_width() && 0 <= y
                < current.spec_height() && dense_rule(*current, x, y)),
{
    next.clear();
    let w = current.width();
    let h = current.height();
    let mut y: usize = 0;
    while y < h
        invariant
            current.wf(),
            w == current.spec_width(),
            h == current.spec_height(),
            next.wf(),
            next.spec_width() == w,
            next.spec_height() == h,
            y <= h,
            forall|i: int, j: int|
                #![trigger next.live(i, j)]
                next.live(i, j) == (0 <= i < w && 0 <= j < y && dense_rule(*current, i, j)),
        decreases h - y,
    {
        let mut x: usize = 0;
        while x < w
            invariant
                current.wf(),
                w == current.spec_width(),
                h == current.spec_height(),
                next.wf(),
                next.spec_width() == w,
                next.spec_height() == h,
                y < h,
                x <= w,
                forall|i: int, j: int|
                    #![trigger next.live(i, j)]
                    next.live(i, j) == ((0 <= i < w && 0 <= j < y && dense_rule(*current, i, j)) || (
                    0 <= i < x && j == y && dense_rule(*current, i, j))),
            decreases w - x,
        {
            let ghost prev = *next;
            let n = count_neighbors(current, x, y);
            let alive = current.get(x, y);
            if n == 3 || (alive && n == 2) {
                proof {
                    assert(dense_rule(*current, x as int, y as int));
                }
                next.set(x, y);
            } else {
                proof {
                    assert(!dense_rule(*current, x as int, y as int));
                }
            }
            proof {
                assert forall|i: int, j: int|
                    next.live(i, j) == ((0 <= i < w && 0 <= j < y && dense_rule(*current, i, j))
                        || (0 <= i < x + 1 && j == y && dense_rule(*current, i, j))) by {
                    if i == x && j == y {
                    } else {
                        assert(next.live(i, j) == prev.live(i, j));
                    }
                }
            }
            x += 1;
        }
        y += 1;
    }
}

/// Number of set bits among the low `k` bits of `b`.
pub open spec fn ones_upto(b: u8, k: int) -> int
    decreases k,
{
    if k <= 0 {
        0
    } else {
        ones_upto(b, k - 1) + if byte_bit(b, (k - 1) as u8) {
            1int
        } else {
            0
        }
    }
}

/// Number of set bits of a byte.
pub open spec fn byte_ones(b: u8) -> int {
    ones_upto(b, 8)
}

/// Number of live cells among linear indices `[lo, lo + n)`.
pub open spec fn irc(cells: Seq<u8>, lo: int, n: int) -> int
    decreases n,
{
    if n <= 0 {
        0
    } else {
        irc(cells, lo, n - 1) + if bit_at(cells, lo + n - 1) {
            1int
        } else {
            0
        }
    }
}

/// Number of live cells among `(x0 .. x0 + n, y)`.
pub open spec fn row_count(g: DenseGrid, y: int, x0: int, n: int) -> int
    decreases n,
{
    if n <= 0 {
        0
    } else {
        row_count(g, y, x0, n - 1) + dind(g, x0 + n - 1, y)
    }
}

/// Number of live cells in the axis-aligned rectangle of width `wd` and
/// height `hg` whose lowest corner is `(x0, y0)`.
pub open spec fn rect_count(g: DenseGrid, x0: int, y0: int, wd: int, hg: int) -> int
    decreases hg,
{
    if hg <= 0 {
        0
    } else {
        rect_count(g, x0, y0, wd, hg - 1) + row_count(g, y0 + hg - 1, x0, wd)
    }
}

/// An index-range count is between 0 and the range length.
proof fn lemma_irc_bounds(cells: Seq<u8>, lo: int, n: int)
    ensures
        0 <= irc(cells, lo, n) <= if n <= 0 {
            0int
        } else {
            n
        },
    decreases n,
{
    if n > 0 {
        lemma_irc_bounds(cells, lo, n - 1);
    }
}

/// Index-range counts over adjacent ranges add up.
proof fn lemma_irc_concat(cells: Seq<u8>, lo: int, a: int, b: int)
    requires
        0 <= a,
        0 <= b,
    ensures
        irc(cells, lo, a + b) == irc(cells, lo, a) + irc(cells, lo + a, b),
    decreases b,
{
    if b > 0 {
        lemma_irc_concat(cells, lo, a, b - 1);
    }
}

/// The count over one byte-aligned range of `m` indices equals the count of
/// the low `m` bits of that byte.
proof fn lemma_irc_byte(cells: Seq<u8>, k: int, m: int)
    requires
        0 <= k < cells.len(),
        0 <= m <= 8,
    ensures
        irc(cells, 8 * k, m) == ones_upto(cells[k], m),
    decreases m,
{
    if m > 0 {
        lemma_irc_byte(cells, k, m - 1);
        lemma_fundamental_div_mod_converse(8 * k + (m - 1), 8, k, m - 1);
        assert(bit_at(cells, 8 * k + (m - 1)) == byte_bit(cells[k], (m - 1) as u8));
    }
}

/// A row-segment count equals the count over the matching index range.
proof fn lemma_row_irc(g: DenseGrid, y: int, x0: int, n: int)
    requires
        g.wf(),
        0 <= y < g.spec_height(),
        0 <= x0,
        0 <= n,
        x0 + n <= g.spec_width(),
    ensures
        row_count(g, y, x0, n) == irc(g.spec_cells(), y * g.spec_width() + x0, n),
    decreases n,
{
    if n > 0 {
        lemma_row_irc(g, y, x0, n - 1);
        let w = g.spec_width();
        lemma_rowmajor_bounds(w, g.spec_height(), x0 + n - 1, y);
        assert(dind(g, x0 + n - 1, y) == if bit_at(g.spec_cells(), y * w + x0 + (n - 1)) {
            1int
        } else {
            0
        });
    }
}

/// The whole-grid rectangle count equals the count over all indices.
proof fn lemma_rect_irc(g: DenseGrid, hg: int)
    requires
        g.wf(),
        0 <= hg <= g.spec_height(),
    ensures
        rect_count(g, 0, 0, g.spec_width(), hg) == irc(g.spec_cells(), 0, hg * g.spec_width()),
    decreases hg,
{
    let w = g.spec_width();
    if hg <= 0 {
        assert(hg * w == 0) by (nonlinear_arith)
            requires
                hg == 0,
        ;
    } else {
        lemma_rect_irc(g, hg - 1);
        lemma_row_irc(g, hg - 1, 0, w);
        assert((hg - 1) * w + w == hg * w) by (nonlinear_arith);
        assert(0 <= (hg - 1) * w) by (nonlinear_arith)
            requires
                hg >= 1,
                w >= 0,
        ;
        lemma_irc_concat(g.spec_cells(), 0, (hg - 1) * w, w);
    }
}

/// Count the set bits of one byte.
fn popcount8(b: u8) -> (n: u8)
    ensures
        n as int == byte_ones(b),
        n <= 8,
{
    let mut n: u8 = 0;
    let mut k: u8 = 0;
    while k < 8
        invariant
            k <= 8,
            n <= k,
            n as int == ones_upto(b, k as int),
        decreases 8 - k,
    {
        if (b >> k) & 1 == 1 {
            n += 1;
        }
        k += 1;
    }
    n
}

impl DenseGrid {
    /// The cell array.
    pub closed spec fn spec_cells(self) -> Seq<u8> {
        self.cells@
    }

    /// Count all live cells by summing byte popcounts.
    pub fn population(&self) -> (r: u32)
        requires
            self.wf(),
        ensures
            r as int == rect_count(*self, 0, 0, self.spec_width(), self.spec_height()),
            r as int <= self.spec_width() * self.spec_height(),
    {
        let n = self.cells.len();
        let mut count: u32 = 0;
        let mut i: usize = 0;
        while i < n
            invariant
                self.wf(),
                n == self.cells@.len(),
                i <= n,
                8 * n == self.spec_width() * self.spec_height(),
                count as int == irc(self.cells@, 0, 8 * i),
                count as int <= 8 * i,
            decreases n - i,
        {
            let p = popcount8(self.cells[i]);
            proof {
                lemma_irc_concat(self.cells@, 0, 8 * (i as int), 8);
                lemma_irc_byte(self.cells@, i as int, 8);
                lemma_irc_bounds(self.cells@, 0, 8 * (i as int));
                assert(0 <= ones_upto(self.cells@[i as int], 8) <= 8) by {
                    lemma_irc_byte(self.cells@, i as int, 8);
                    lemma_irc_bounds(self.cells@, 8 * (i as int), 8);
                }
            }
            count += p as u32;
            i += 1;
        }
        proof {
            lemma_rect_irc(*self, self.spec_height());
            assert(self.spec_height() * self.spec_width() == self.spec_width()
                * self.spec_height()) by (nonlinear_arith);
        }
        count
    }

    /// Count live cells in the 64 by 64 aligned tile at tile coordinates
    /// `(tx, ty)`.
    pub fn tile_population(&self, tx: usize, ty: usize) -> (r: u32)
        requires
            self.wf(),
            (tx + 1) * 64 <= self.spec_width(),
            (ty + 1) * 64 <= self.spec_height(),
        ensures
            r as int == rect_count(*self, tx as int * 64, ty as int * 64, 64, 64),
            r <= 4096,
    {
        let w = self.width();
        let x0 = tx * 64;
        let y0 = ty * 64;
        let row_bytes = w / 8;
        let mut count: u32 = 0;
        let mut row: usize = 0;
        proof {
            lemma_fundamental_div_mod(w as int, 8);
        }
        while row < 64
            invariant
                self.wf(),
                w == self.spec_width(),
                row_bytes == w / 8,
                w == 8 * row_bytes,
                x0 == tx * 64,
                y0 == ty * 64,
                x0 + 64 <= w,
                y0 + 64 <= self.spec_height(),
                row <= 64,
                count as int == rect_count(*self, x0 as int, y0 as int, 64, row as int),
                count <= 64 * row,
            decreases 64 - row,
        {
            let y = y0 + row;
            let ghost cs = self.cells@;
            let ghost rowstart: int = y as int * w as int + x0 as int;
            proof {
                lemma_rowmajor_bounds(w as int, self.spec_height() as int, x0 as int, y as int);
                assert(rowstart + 64 <= w as int * self.spec_height()) by (nonlinear_arith)
                    requires
                        rowstart == y as int * w as int + x0 as int,
                        0 <= y as int,
                        y as int + 1 <= self.spec_height(),
                        x0 + 64 <= w,
                        0 < w,
                ;
                assert(rowstart == 8 * (y as int * row_bytes as int + x0 as int / 8))
                    by (nonlinear_arith)
                    requires
                        rowstart == y as int * w as int + x0 as int,
                        w == 8 * row_bytes,
                        x0 as int % 8 == 0,
                        x0 as int == 8 * (x0 as int / 8),
                ;
            }
            proof {
                lemma_fundamental_div_mod(x0 as int, 8);
                assert(x0 as int % 8 == 0) by (nonlinear_arith)
                    requires
                        x0 == tx * 64,
                ;
            }
            let base = y * row_bytes + x0 / 8;
            let mut b: usize = 0;
            while b < 8
                invariant
                    self.wf(),
                    w == self.spec_width(),
                    w == 8 * row_bytes,
                    b <= 8,
                    y as int * w as int + x0 as int == rowstart,
                    cs == self.cells@,
                    base == y * row_bytes + x0 / 8,
                    rowstart == 8 * base,
                    rowstart + 64 <= w as int * self.spec_height(),
                    8 * self.cells@.len() == w as int * self.spec_height(),
                    count as int == rect_count(*self, x0 as int, y0 as int, 64, row as int) + irc(
                        cs,
                        rowstart,
                        8 * b,
                    ),
                    row < 64,
                    count <= 64 * row + 8 * b,
                decreases 8 - b,
            {
                proof {
                    lemma_byte_index(self.cells@.len() as int, rowstart + 8 * (b as int));
                    lemma_fundamental_div_mod_converse(
                        rowstart + 8 * (b as int),
                        8,
                        base as int + b as int,
                        0,
                    );
                    lemma_irc_concat(cs, rowstart, 8 * (b as int), 8);
                    lemma_irc_byte(cs, base as int + b as int, 8);
                    lemma_irc_bounds(cs, rowstart + 8 * (b as int), 8);
                    lemma_irc_bounds(cs, rowstart, 8 * (b as int));
                }
                let p = popcount8(self.cells[base + b]);
                count += p as u32;
                b += 1;
            }
            proof {
                lemma_row_irc(*self, y as int, x0 as int, 64);
                assert(rect_count(*self, x0 as int, y0 as int, 64, row as int + 1) == rect_count(
                    *self,
                    x0 as int,
                    y0 as int,
                    64,
                    row as int,
                ) + row_count(*self, y0 as int + row as int, x0 as int, 64));
            }
            row += 1;
        }
        count
    }
}

/// `(i, j)` is hit when the pattern positions `cells` are stamped at
/// `(ox, oy)` onto a `w` by `h` torus: some pattern cell lands there after
/// wrapping.
pub open spec fn stamp_hit(
    cells: Set<(int, int)>,
    ox: int,
    oy: int,
    w: int,
    h: int,
    i: int,
    j: int,
) -> bool {
    exists|q: (int, int)|
        #[trigger] cells.contains(q) && i == (ox + q.1) % w && j == (oy + q.0) % h
}

/// Stamp a pattern into the grid additively: cells live before stay live, and
/// every live cell of the pattern is OR'd in at its anchor-relative position,
/// wrapped toroidally.
pub fn stamp_pattern(grid: &mut DenseGrid, pattern: &str, offset_x: usize, offset_y: usize)
    requires
        old(grid).wf(),
    ensures
        final(grid).wf(),
        final(grid).spec_width() == old(grid).spec_width(),
        final(grid).spec_height() == old(grid).spec_height(),
        forall|i: int, j: int|
            #![trigger final(grid).live(i, j)]
            final(grid).live(i, j) == (old(grid).live(i, j) || stamp_hit(
                pattern_cells(pattern@),
                offset_x as int,
                offset_y as int,
                old(grid).spec_width(),
                old(grid).spec_height(),
                i,
                j,
            )),
{
    let cells = crate::codec::parse_pattern(pattern);
    let w = grid.width();
    let h = grid.height();
    let ghost ox = offset_x as int;
    let ghost oy = offset_y as int;
    let n = cells.len();
    let mut k: usize = 0;
    while k < n
        invariant
            grid.wf(),
            w == grid.spec_width(),
            h == grid.spec_height(),
            w <= 0x1000_0000,
            h <= 0x1000_0000,
            n == cells@.len(),
            k <= n,
            ox == offset_x as int,
            oy == offset_y as int,
            pset(cells@) == pattern_cells(pattern@),
            forall|i: int, j: int|
                #![trigger grid.live(i, j)]
                grid.live(i, j) == (old(grid).live(i, j) || stamp_hit(
                    pset(cells@.take(k as int)),
                    ox,
                    oy,
                    w as int,
                    h as int,
                    i,
                    j,
                )),
        decreases n - k,
    {
        let (pr, pc) = cells[k];
        let x = (offset_x % w + pc % w) % w;
        let y = (offset_y % h + pr % h) % h;
        let ghost before = *grid;
        grid.set(x, y);
        proof {
            vstd::arithmetic::div_mod::lemma_add_mod_noop(
                offset_x as int,
                pc as int,
                w as int,
            );
            vstd::arithmetic::div_mod::lemma_add_mod_noop(
                offset_y as int,
                pr as int,
                h as int,
            );
            lemma_pset_push_take(cells@, k as int);
            let qm = (pr as int, pc as int);
            let s0 = pset(cells@.take(k as int));
            let s1 = pset(cells@.take(k + 1));
            assert(s1 == s0.insert(qm));
            assert forall|i: int, j: int| #![trigger grid.live(i, j)]
                grid.live(i, j) == (old(grid).live(i, j) || stamp_hit(
                    s1,
                    ox,
                    oy,
                    w as int,
                    h as int,
                    i,
                    j,
                )) by {
                assert(grid.live(i, j) == (before.live(i, j) || (i == x && j == y)));
                if grid.live(i, j) {
                    if before.live(i, j) {
                        if !old(grid).live(i, j) {
                            let q = choose|q: (int, int)|
                                #[trigger] s0.contains(q) && i == (ox + q.1) % (w as int) && j == (
                                oy + q.0) % (h as int);
                            assert(s1.contains(q));
                        }
                    } else {
                        assert(i == x && j == y);
                        assert(s1.contains(qm));
                        assert(x as int == (ox + qm.1) % (w as int));
                        assert(y as int == (oy + qm.0) % (h as int));
                    }
                }
                if !grid.live(i, j) {
                    if stamp_hit(s1, ox, oy, w as int, h as int, i, j) {
                        let q = choose|q: (int, int)|
                            #[trigger] s1.contains(q) && i == (ox + q.1) % (w as int) && j == (oy
                                + q.0) % (h as int);
                        if q == qm {
                            assert(i == x && j == y);
                            assert(false);
                        } else {
                            assert(s0.contains(q));
                            assert(before.live(i, j));
                            assert(false);
                        }
                    }
                }
            }
        }
        k += 1;
    }
    proof {
        assert(cells@.take(n as int) == cells@);
    }
}

/// The cell `(i, j)` receives a live draw when the grid is scattered from
/// generator state `r0` at this density: the cells are visited row-major,
/// one draw each, and the draw's low byte falls below the density.
pub open spec fn scatter_hit(r0: u32, w: int, density: u8, i: int, j: int) -> bool {
    (xorshift_iter(r0, (j * w + i + 1) as nat) & 0xFF) < density as u32
}

/// Scatter random live cells across the grid: the cells are visited in
/// row-major order, one generator draw each, and a cell becomes live when
/// the draw's low byte falls below `density` (so with probability about
/// `density / 256`); live cells stay live. The generator advances exactly
/// one round per cell.
pub fn scatter_random(grid: &mut DenseGrid, rng: &mut Rng, density: u8)
    requires
        old(grid).wf(),
        old(rng).wf(),
    ensures
        final(grid).wf(),
        final(rng).wf(),
        final(grid).spec_width() == old(grid).spec_width(),
        final(grid).spec_height() == old(grid).spec_height(),
        final(rng).0 == xorshift_iter(
            old(rng).0,
            (old(grid).spec_width() * old(grid).spec_height()) as nat,
        ),
        forall|i: int, j: int|
            #![trigger final(grid).live(i, j)]
            0 <= i < old(grid).spec_width() && 0 <= j < old(grid).spec_height()
                ==> final(grid).live(i, j) == (old(grid).live(i, j) || scatter_hit(
                old(rng).0,
                old(grid).spec_width(),
                density,
                i,
                j,
            )),
{
    let w = grid.width();
    let h = grid.height();
    let ghost r0 = rng.0;
    let mut y: usize = 0;
    while y < h
        invariant
            grid.wf(),
            rng.wf(),
            w == grid.spec_width(),
            h == grid.spec_height(),
            y <= h,
            r0 == old(rng).0,
            rng.0 == xorshift_iter(r0, (y * w) as nat),
            forall|i: int, j: int|
                #![trigger grid.live(i, j)]
                0 <= i < w && 0 <= j < h ==> grid.live(i, j) == (old(grid).live(i, j) || (j < y
                    && scatter_hit(r0, w as int, density, i, j))),
        decreases h - y,
    {
        let mut x: usize = 0;
        while x < w
            invariant
                grid.wf(),
                rng.wf(),
                w == grid.spec_width(),
                h == grid.spec_height(),
                y < h,
                x <= w,
                r0 == old(rng).0,
                rng.0 == xorshift_iter(r0, (y * w + x) as nat),
                forall|i: int, j: int|
                    #![trigger grid.live(i, j)]
                    0 <= i < w && 0 <= j < h ==> grid.live(i, j) == (old(grid).live(i, j) || (j < y
                        && scatter_hit(r0, w as int, density, i, j)) || (j == y && i < x
                        && scatter_hit(r0, w as int, density, i, j))),
            decreases w - x,
        {
            proof {
                lemma_rowmajor_bounds(w as int, h as int, x as int, y as int);
            }
            let ghost before = *grid;
            let v = rng.next();
            proof {
                assert(xorshift_iter(r0, (y * w + x + 1) as nat) == crate::rng::xorshift32(
                    xorshift_iter(r0, (y * w + x) as nat),
                ));
                assert(v == xorshift_iter(r0, (y * w + x + 1) as nat));
            }
            if (v & 0xFF) < density as u32 {
                grid.set(x, y);
                proof {
                    assert(scatter_hit(r0, w as int, density, x as int, y as int));
                }
            } else {
                proof {
                    assert(!scatter_hit(r0, w as int, density, x as int, y as int));
                }
            }
            x += 1;
        }
        proof {
            assert((y + 1) * w == y * w + w) by (nonlinear_arith);
        }
        y += 1;
    }
    proof {
        assert(h * w == w * h) by (nonlinear_arith);
    }
}

/// The set of live cells of a grid.
pub open spec fn live_set(g: DenseGrid) -> Set<(int, int)> {
    Set::new(|p: (int, int)| g.live(p.0, p.1))
}

/// The live cells of row `y` among columns `0 .. n`.
spec fn row_set(g: DenseGrid, y: int, n: int) -> Set<(int, int)> {
    Set::new(|p: (int, int)| g.live(p.0, p.1) && p.1 == y && p.0 < n)
}

/// The live cells of rows `0 .. k`.
spec fn rows_set(g: DenseGrid, k: int) -> Set<(int, int)> {
    Set::new(|p: (int, int)| g.live(p.0, p.1) && p.1 < k)
}

/// A row segment holds as many live cells as its count says.
proof fn lemma_row_set_len(g: DenseGrid, y: int, n: int)
    requires
        g.wf(),
        0 <= n <= g.spec_width(),
    ensures
        row_set(g, y, n).finite(),
        row_set(g, y, n).len() == row_count(g, y, 0, n),
    decreases n,
{
    if n == 0 {
        assert(row_set(g, y, 0) =~= Set::<(int, int)>::empty());
    } else {
        lemma_row_set_len(g, y, n - 1);
        if g.live(n - 1, y) {
            assert(row_set(g, y, n) =~= row_set(g, y, n - 1).insert((n - 1, y)));
            assert(!row_set(g, y, n - 1).contains((n - 1, y)));
        } else {
            assert(row_set(g, y, n) =~= row_set(g, y, n - 1));
        }
    }
}

/// The rows below `k` hold as many live cells as the rectangle count says.
proof fn lemma_rows_set_len(g: DenseGrid, k: int)
    requires
        g.wf(),
        0 <= k <= g.spec_height(),
    ensures
        rows_set(g, k).finite(),
        rows_set(g, k).len() == rect_count(g, 0, 0, g.spec_width(), k),
    decreases k,
{
    let w = g.spec_width();
    if k == 0 {
        assert(rows_set(g, 0) =~= Set::<(int, int)>::empty());
    } else {
        lemma_rows_set_len(g, k - 1);
        lemma_row_set_len(g, k - 1, w);
        let a = rows_set(g, k - 1);
        let b = row_set(g, k - 1, w);
        assert(rows_set(g, k) =~= a.union(b));
        assert(a.disjoint(b));
        vstd::set_lib::lemma_set_disjoint_lens(a, b);
    }
}

/// The population matches the enumeration of the live cells: the sum of byte
/// popcounts that `population` computes equals the cardinality of the live
/// set.
pub proof fn lemma_population_cardinality(g: DenseGrid)
    requires
        g.wf(),
    ensures
        live_set(g).finite(),
        live_set(g).len() == rect_count(g, 0, 0, g.spec_width(), g.spec_height()),
{
    lemma_rows_set_len(g, g.spec_height());
    assert(live_set(g) =~= rows_set(g, g.spec_height()));
}

/// `g2` holds `g1` shifted by `(a, b)` on the torus: the cell of `g2` at
/// `(x, y)` is the cell of `g1` at `((x + a) mod w, (y + b) mod h)`.
pub open spec fn torus_translated(g1: DenseGrid, g2: DenseGrid, a: int, b: int) -> bool {
    &&& g2.spec_width() == g1.spec_width()
    &&& g2.spec_height() == g1.spec_height()
    &&& forall|x: int, y: int|
        #![trigger g2.live(x, y)]
        0 <= x < g1.spec_width() && 0 <= y < g1.spec_height() ==> g2.live(x, y) == g1.live(
            (x + a) % g1.spec_width(),
            (y + b) % g1.spec_height(),
        )
}

/// Shifting then wrapping is wrapping then shifting: both sides reduce
/// `u + v` modulo `m`.
proof fn lemma_mod_shift(u: int, v: int, m: int)
    requires
        0 < m,
    ensures
        (u % m + v) % m == (u + v) % m,
{
    vstd::arithmetic::div_mod::lemma_add_mod_noop(u, v, m);
    vstd::arithmetic::div_mod::lemma_add_mod_noop(u % m, v, m);
    vstd::arithmetic::div_mod::lemma_mod_twice(u, m);
}

/// The B3/S23 rule commutes with toroidal translation: the rule at `(x, y)`
/// of the shifted grid is the rule at the shifted position of the original.
/// With the contract of `step`, the evolution of a shifted world is the
/// shifted evolution, so the behavior of a pattern does not depend on where
/// it is stamped on the torus.
pub proof fn lemma_rule_translation_equivariant(g1: DenseGrid, g2: DenseGrid, a: int, b: int)
    requires
        g1.wf(),
        g2.wf(),
        torus_translated(g1, g2, a, b),
    ensures
        forall|x: int, y: int|
            #![trigger dense_rule(g2, x, y)]
            0 <= x < g1.spec_width() && 0 <= y < g1.spec_height() ==> dense_rule(g2, x, y)
                == dense_rule(g1, (x + a) % g1.spec_width(), (y + b) % g1.spec_height()),
{
    let w = g1.spec_width();
    let h = g1.spec_height();
    assert forall|x: int, y: int|
        0 <= x < w && 0 <= y < h implies #[trigger] dense_rule(g2, x, y) == dense_rule(
        g1,
        (x + a) % w,
        (y + b) % h,
    ) by {
        let xs = (x + a) % w;
        let ys = (y + b) % h;
        assert forall|dx: int, dy: int|
            -1 <= dx <= 1 && -1 <= dy <= 1 implies #[trigger] g2.live(
            (x + dx + w) % w,
            (y + dy + h) % h,
        ) == g1.live((xs + dx + w) % w, (ys + dy + h) % h) by {
            let nx = (x + dx + w) % w;
            let ny = (y + dy + h) % h;
            assert(0 <= nx < w && 0 <= ny < h);
            assert(g2.live(nx, ny) == g1.live((nx + a) % w, (ny + b) % h));
            assert((nx + a) % w == (xs + dx + w) % w) by {
                lemma_mod_shift(x + dx + w, a, w);
                assert((nx + a) % w == (x + dx + w + a) % w);
                lemma_mod_shift(x + a, dx + w, w);
                assert((xs + dx + w) % w == (x + a + dx + w) % w);
            }
            assert((ny + b) % h == (ys + dy + h) % h) by {
                lemma_mod_shift(y + dy + h, b, h);
                lemma_mod_shift(y + b, dy + h, h);
            }
        }
        assert(g2.live((x - 1 + w) % w, (y - 1 + h) % h) == g1.live(
            (xs - 1 + w) % w,
            (ys - 1 + h) % h,
        )) by {
            assert(x - 1 + w == x + (-1) + w && y - 1 + h == y + (-1) + h);
        }
        assert(g2.live(x, y) == g1.live(xs, ys)) by {
            lemma_mod_shift(x, a, w);
            vstd::arithmetic::div_mod::lemma_small_mod(x as nat, w as nat);
            vstd::arithmetic::div_mod::lemma_small_mod(y as nat, h as nat);
            assert(g2.live((x + 0 + w) % w, (y + 0 + h) % h) == g1.live(
                (xs + 0 + w) % w,
                (ys + 0 + h) % h,
            ));
            vstd::arithmetic::div_mod::lemma_mod_multiples_vanish(1, x, w);
            vstd::arithmetic::div_mod::lemma_mod_multiples_vanish(1, y, h);
            vstd::arithmetic::div_mod::lemma_mod_multiples_vanish(1, xs, w);
            vstd::arithmetic::div_mod::lemma_mod_multiples_vanish(1, ys, h);
            vstd::arithmetic::div_mod::lemma_small_mod(xs as nat, w as nat);
            vstd::arithmetic::div_mod::lemma_small_mod(ys as nat, h as nat);
        }
        assert(torus_nc(g2, x, y) == torus_nc(g1, xs, ys)) by {
            assert(g2.live((x - 1 + w) % w, (y - 1 + h) % h) == g1.live((xs - 1 + w) % w, (ys - 1 + h) % h));
            assert(g2.live((x + 0 + w) % w, (y - 1 + h) % h) == g1.live((xs + 0 + w) % w, (ys - 1 + h) % h));
            assert(g2.live((x + 1 + w) % w, (y - 1 + h) % h) == g1.live((xs + 1 + w) % w, (ys - 1 + h) % h));
            assert(g2.live((x - 1 + w) % w, (y + 0 + h) % h) == g1.live((xs - 1 + w) % w, (ys + 0 + h) % h));
            assert(g2.live((x + 1 + w) % w, (y + 0 + h) % h) == g1.live((xs + 1 + w) % w, (ys + 0 + h) % h));
            assert(g2.live((x - 1 + w) % w, (y + 1 + h) % h) == g1.live((xs - 1 + w) % w, (ys + 1 + h) % h));
            assert(g2.live((x + 0 + w) % w, (y + 1 + h) % h) == g1.live((xs + 0 + w) % w, (ys + 1 + h) % h));
            assert(g2.live((x + 1 + w) % w, (y + 1 + h) % h) == g1.live((xs + 1 + w) % w, (ys + 1 + h) % h));
            vstd::arithmetic::div_mod::lemma_mod_multiples_vanish(1, x - 1, w);
            vstd::arithmetic::div_mod::lemma_mod_multiples_vanish(1, y - 1, h);
            vstd::arithmetic::div_mod::lemma_mod_multiples_vanish(1, xs - 1, w);
            vstd::arithmetic::div_mod::lemma_mod_multiples_vanish(1, ys - 1, h);
            vstd::arithmetic::div_mod::lemma_mod_multiples_vanish(1, x + 1, w);
            vstd::arithmetic::div_mod::lemma_mod_multiples_vanish(1, y + 1, h);
            vstd::arithmetic::div_mod::lemma_mod_multiples_vanish(1, xs + 1, w);
            vstd::arithmetic::div_mod::lemma_mod_multiples_vanish(1, ys + 1, h);
            vstd::arithmetic::div_mod::lemma_mod_multiples_vanish(1, x, w);
            vstd::arithmetic::div_mod::lemma_mod_multiples_vanish(1, y, h);
            vstd::arithmetic::div_mod::lemma_mod_multiples_vanish(1, xs, w);
            vstd::arithmetic::div_mod::lemma_mod_multiples_vanish(1, ys, h);
            vstd::arithmetic::div_mod::lemma_small_mod(x as nat, w as nat);
            vstd::arithmetic::div_mod::lemma_small_mod(y as nat, h as nat);
            vstd::arithmetic::div_mod::lemma_small_mod(xs as nat, w as nat);
            vstd::arithmetic::div_mod::lemma_small_mod(ys as nat, h as nat);
        }
    }
}

/// A lone two-by-two block at the origin of a torus with sides of at least
/// three is a fixed point of the rule: each block cell has exactly three
/// live neighbors, and every other cell at most two (on a side of one or
/// two the wrapped neighborhood would double-count, so those tori are left
/// out).
pub proof fn lemma_block_still_life(g: DenseGrid)
    requires
        g.wf(),
        g.spec_width() >= 3,
        g.spec_height() >= 3,
        forall|x: int, y: int|
            #![trigger g.live(x, y)]
            g.live(x, y) == ((x == 0 || x == 1) && (y == 0 || y == 1)),
    ensures
        forall|x: int, y: int|
            #![trigger dense_rule(g, x, y)]
            0 <= x < g.spec_width() && 0 <= y < g.spec_height() ==> dense_rule(g, x, y) == g.live(
                x,
                y,
            ),
{
    let w = g.spec_width();
    let h = g.spec_height();
    assert forall|x: int, y: int|
        0 <= x < w && 0 <= y < h implies #[trigger] dense_rule(g, x, y) == g.live(x, y) by {
        if x == 0 {
            vstd::arithmetic::div_mod::lemma_small_mod((w - 1) as nat, w as nat);
            assert((x - 1 + w) % w == w - 1);
        } else {
            vstd::arithmetic::div_mod::lemma_mod_multiples_vanish(1, x - 1, w);
            vstd::arithmetic::div_mod::lemma_small_mod((x - 1) as nat, w as nat);
            assert((x - 1 + w) % w == x - 1);
        }
        if x == w - 1 {
            vstd::arithmetic::div_mod::lemma_mod_self_0(w);
            assert((x + 1) % w == 0);
        } else {
            vstd::arithmetic::div_mod::lemma_small_mod((x + 1) as nat, w as nat);
            assert((x + 1) % w == x + 1);
        }
        if y == 0 {
            vstd::arithmetic::div_mod::lemma_small_mod((h - 1) as nat, h as nat);
            assert((y - 1 + h) % h == h - 1);
        } else {
            vstd::arithmetic::div_mod::lemma_mod_multiples_vanish(1, y - 1, h);
            vstd::arithmetic::div_mod::lemma_small_mod((y - 1) as nat, h as nat);
            assert((y - 1 + h) % h == y - 1);
        }
        if y == h - 1 {
            vstd::arithmetic::div_mod::lemma_mod_self_0(h);
            assert((y + 1) % h == 0);
        } else {
            vstd::arithmetic::div_mod::lemma_small_mod((y + 1) as nat, h as nat);
            assert((y + 1) % h == y + 1);
        }
    }
}

/// Away from the wrap, the torus and the infinite plane agree: if the live
/// set, read as `(row, column)` positions, keeps one cell of margin from
/// every edge, the toroidal rule at each in-range cell equals the plane rule
/// at the same position.
pub proof fn lemma_interior_rule(g: DenseGrid, s: Set<(int, int)>)
    requires
        g.wf(),
        forall|x: int, y: int| #![trigger g.live(x, y)] g.live(x, y) == s.contains((y, x)),
        forall|p: (int, int)| #[trigger]
            s.contains(p) ==> 1 <= p.0 <= g.spec_height() - 2 && 1 <= p.1 <= g.spec_width() - 2,
    ensures
        forall|x: int, y: int|
            #![trigger dense_rule(g, x, y)]
            0 <= x < g.spec_width() && 0 <= y < g.spec_height() ==> dense_rule(g, x, y)
                == crate::sparse::next_alive(s, (y, x)),
{
    let w = g.spec_width();
    let h = g.spec_height();
    assert forall|x: int, y: int|
        0 <= x < w && 0 <= y < h implies #[trigger] dense_rule(g, x, y)
        == crate::sparse::next_alive(s, (y, x)) by {
        if x == 0 {
            vstd::arithmetic::div_mod::lemma_small_mod((w - 1) as nat, w as nat);
            assert((x - 1 + w) % w == w - 1);
        } else {
            vstd::arithmetic::div_mod::lemma_mod_multiples_vanish(1, x - 1, w);
            vstd::arithmetic::div_mod::lemma_small_mod((x - 1) as nat, w as nat);
            assert((x - 1 + w) % w == x - 1);
        }
        if x == w - 1 {
            vstd::arithmetic::div_mod::lemma_mod_self_0(w);
            assert((x + 1) % w == 0);
        } else {
            vstd::arithmetic::div_mod::lemma_small_mod((x + 1) as nat, w as nat);
            assert((x + 1) % w == x + 1);
        }
        if y == 0 {
            vstd::arithmetic::div_mod::lemma_small_mod((h - 1) as nat, h as nat);
            assert((y - 1 + h) % h == h - 1);
        } else {
            vstd::arithmetic::div_mod::lemma_mod_multiples_vanish(1, y - 1, h);
            vstd::arithmetic::div_mod::lemma_small_mod((y - 1) as nat, h as nat);
            assert((y - 1 + h) % h == y - 1);
        }
        if y == h - 1 {
            vstd::arithmetic::div_mod::lemma_mod_self_0(h);
            assert((y + 1) % h == 0);
        } else {
            vstd::arithmetic::div_mod::lemma_small_mod((y + 1) as nat, h as nat);
            assert((y + 1) % h == y + 1);
        }
    }
}

/// The positions of a set shifted by `(a, b)` all lie within the shifted
/// bounding box of the original.
proof fn lemma_translate_box(s: Set<(int, int)>, a: int, b: int, r1: int, c1: int)
    requires
        forall|p: (int, int)| #[trigger] s.contains(p) ==> 0 <= p.0 <= r1 && 0 <= p.1 <= c1,
    ensures
        forall|p: (int, int)| #[trigger]
            crate::sparse::translate(s, a, b).contains(p) ==> a <= p.0 <= r1 + a && b <= p.1 <= c1
                + b,
{
    assert forall|p: (int, int)| #[trigger]
        crate::sparse::translate(s, a, b).contains(p) implies a <= p.0 <= r1 + a && b <= p.1 <= c1
        + b by {
        assert(s.contains((p.0 - a, p.1 - b)));
    }
}

/// One toroidal generation of a world holding a margined plane set: the new
/// world holds the plane step of the set.
proof fn lemma_interior_step(g: DenseGrid, g2: DenseGrid, s: Set<(int, int)>)
    requires
        g.wf(),
        g2.wf(),
        g2.spec_width() == g.spec_width(),
        g2.spec_height() == g.spec_height(),
        forall|x: int, y: int| #![trigger g.live(x, y)] g.live(x, y) == s.contains((y, x)),
        forall|p: (int, int)| #[trigger]
            s.contains(p) ==> 1 <= p.0 <= g.spec_height() - 2 && 1 <= p.1 <= g.spec_width() - 2,
        forall|x: int, y: int|
            #![trigger g2.live(x, y)]
            g2.live(x, y) == (0 <= x < g.spec_width() && 0 <= y < g.spec_height() && dense_rule(
                g,
                x,
                y,
            )),
    ensures
        forall|x: int, y: int|
            #![trigger g2.live(x, y)]
            g2.live(x, y) == crate::sparse::step_spec(s).contains((y, x)),
{
    let w = g.spec_width();
    let h = g.spec_height();
    lemma_interior_rule(g, s);
    crate::sparse::lemma_step_in_block(s);
    assert forall|x: int, y: int|
        #![trigger g2.live(x, y)]
        g2.live(x, y) == crate::sparse::step_spec(s).contains((y, x)) by {
        if 0 <= x < w && 0 <= y < h {
            assert(dense_rule(g, x, y) == crate::sparse::next_alive(s, (y, x)));
        } else {
            if crate::sparse::step_spec(s).contains((y, x)) {
                assert(crate::sparse::block_of(s).contains((y, x)));
                let q = choose|q: (int, int)| s.contains(q) && crate::sparse::near(q, (y, x));
                assert(1 <= q.0 <= h - 2 && 1 <= q.1 <= w - 2);
                assert(false);
            }
        }
    }
}

/// Four generations of the toroidal rule carry a lone glider one cell down
/// and one cell right, wherever it lies with a two-cell margin from every
/// edge: the torus agrees with the plane away from the wrap, and on the
/// plane the glider's four phases translate it by one row and one column.
pub proof fn lemma_torus_glider_cycle(
    g0: DenseGrid,
    g1: DenseGrid,
    g2: DenseGrid,
    g3: DenseGrid,
    g4: DenseGrid,
    a: int,
    b: int,
)
    requires
        g0.wf() && g1.wf() && g2.wf() && g3.wf() && g4.wf(),
        g1.spec_width() == g0.spec_width() && g1.spec_height() == g0.spec_height(),
        g2.spec_width() == g0.spec_width() && g2.spec_height() == g0.spec_height(),
        g3.spec_width() == g0.spec_width() && g3.spec_height() == g0.spec_height(),
        g4.spec_width() == g0.spec_width() && g4.spec_height() == g0.spec_height(),
        1 <= a && a + 3 <= g0.spec_height() - 2,
        1 <= b && b + 3 <= g0.spec_width() - 2,
        forall|x: int, y: int|
            #![trigger g0.live(x, y)]
            g0.live(x, y) == crate::sparse::translate(
                crate::sparse::glider_cells(),
                a,
                b,
            ).contains((y, x)),
        forall|x: int, y: int|
            #![trigger g1.live(x, y)]
            g1.live(x, y) == (0 <= x < g0.spec_width() && 0 <= y < g0.spec_height()
                && dense_rule(g0, x, y)),
        forall|x: int, y: int|
            #![trigger g2.live(x, y)]
            g2.live(x, y) == (0 <= x < g0.spec_width() && 0 <= y < g0.spec_height()
                && dense_rule(g1, x, y)),
        forall|x: int, y: int|
            #![trigger g3.live(x, y)]
            g3.live(x, y) == (0 <= x < g0.spec_width() && 0 <= y < g0.spec_height()
                && dense_rule(g2, x, y)),
        forall|x: int, y: int|
            #![trigger g4.live(x, y)]
            g4.live(x, y) == (0 <= x < g0.spec_width() && 0 <= y < g0.spec_height()
                && dense_rule(g3, x, y)),
    ensures
        forall|x: int, y: int|
            #![trigger g4.live(x, y)]
            g4.live(x, y) == crate::sparse::translate(
                crate::sparse::glider_cells(),
                a + 1,
                b + 1,
            ).contains((y, x)),
{
    let w = g0.spec_width();
    let h = g0.spec_height();
    let gc = crate::sparse::glider_cells();
    let s0 = crate::sparse::translate(gc, a, b);
    let s1 = crate::sparse::step_spec(s0);
    let s2 = crate::sparse::step_spec(s1);
    let s3 = crate::sparse::step_spec(s2);
    let s4 = crate::sparse::step_spec(s3);
    let p1: Set<(int, int)> = set![(1int, 0int), (1int, 2int), (2int, 1int), (2int, 2int), (3int, 1int)];
    let p2: Set<(int, int)> = set![(1int, 2int), (2int, 0int), (2int, 2int), (3int, 1int), (3int, 2int)];
    let p3: Set<(int, int)> = set![(1int, 1int), (2int, 2int), (2int, 3int), (3int, 1int), (3int, 2int)];
    let p4: Set<(int, int)> = set![(1int, 2int), (2int, 3int), (3int, 1int), (3int, 2int), (3int, 3int)];
    crate::sparse::lemma_glider_phase_1();
    crate::sparse::lemma_glider_phase_2();
    crate::sparse::lemma_glider_phase_3();
    crate::sparse::lemma_glider_phase_4();
    crate::sparse::lemma_step_translation_equivariant(gc, a, b);
    assert(s1 == crate::sparse::translate(p1, a, b));
    crate::sparse::lemma_step_translation_equivariant(p1, a, b);
    assert(s2 == crate::sparse::translate(p2, a, b));
    crate::sparse::lemma_step_translation_equivariant(p2, a, b);
    assert(s3 == crate::sparse::translate(p3, a, b));
    crate::sparse::lemma_step_translation_equivariant(p3, a, b);
    assert(s4 == crate::sparse::translate(p4, a, b));
    assert(forall|p: (int, int)| #[trigger] gc.contains(p) ==> 0 <= p.0 <= 3 && 0 <= p.1 <= 3);
    assert(forall|p: (int, int)| #[trigger] p1.contains(p) ==> 0 <= p.0 <= 3 && 0 <= p.1 <= 3);
    assert(forall|p: (int, int)| #[trigger] p2.contains(p) ==> 0 <= p.0 <= 3 && 0 <= p.1 <= 3);
    assert(forall|p: (int, int)| #[trigger] p3.contains(p) ==> 0 <= p.0 <= 3 && 0 <= p.1 <= 3);
    lemma_translate_box(gc, a, b, 3, 3);
    lemma_translate_box(p1, a, b, 3, 3);
    lemma_translate_box(p2, a, b, 3, 3);
    lemma_translate_box(p3, a, b, 3, 3);
    lemma_interior_step(g0, g1, s0);
    lemma_interior_step(g1, g2, s1);
    lemma_interior_step(g2, g3, s2);
    lemma_interior_step(g3, g4, s3);
    assert(s4 =~= crate::sparse::translate(gc, a + 1, b + 1)) by {
        crate::sparse::lemma_glider_cycle();
        assert(crate::sparse::step_iter(gc, 4) == crate::sparse::translate(gc, 1, 1));
        assert(p4 == crate::sparse::translate(gc, 1, 1)) by {
            assert(crate::sparse::step_iter(gc, 1) == crate::sparse::step_spec(
                crate::sparse::step_iter(gc, 0),
            ));
            assert(crate::sparse::step_iter(gc, 2) == crate::sparse::step_spec(
                crate::sparse::step_iter(gc, 1),
            ));
            assert(crate::sparse::step_iter(gc, 3) == crate::sparse::step_spec(
                crate::sparse::step_iter(gc, 2),
            ));
            assert(crate::sparse::step_iter(gc, 4) == crate::sparse::step_spec(
                crate::sparse::step_iter(gc, 3),
            ));
        }
        assert forall|p: (int, int)|
            crate::sparse::translate(crate::sparse::translate(gc, 1, 1), a, b).contains(p)
                == crate::sparse::translate(gc, a + 1, b + 1).contains(p) by {
        }
    }
}

} // verus!
