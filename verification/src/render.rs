//! Text rendering: the terminal frame for the sparse grid, the bounding-box
//! picture of a grid, and the scene log lines.

use vstd::prelude::*;

verus! {

use crate::codec::alive_char;
use crate::codec::pattern_cells;
use crate::codec::rectangular;
use crate::codec::lemma_parse_rectangular;
use crate::dense::DenseGrid;
use crate::sparse::Grid;
use crate::viewport::Viewport;

/// The decimal digit character for `d`.
pub open spec fn digit_char(d: int) -> char {
    if d == 0 {
        '0'
    } else if d == 1 {
        '1'
    } else if d == 2 {
        '2'
    } else if d == 3 {
        '3'
    } else if d == 4 {
        '4'
    } else if d == 5 {
        '5'
    } else if d == 6 {
        '6'
    } else if d == 7 {
        '7'
    } else if d == 8 {
        '8'
    } else {
        '9'
    }
}

/// The decimal rendering of `n`, most significant digit first.
pub open spec fn dec_spec(n: int) -> Seq<char>
    decreases n,
{
    if n < 10 {
        seq![digit_char(n)]
    } else {
        dec_spec(n / 10).push(digit_char(n % 10))
    }
}

/// The character a cell renders as: a full block when alive, else `dead`.
pub open spec fn cell_char(s: Set<(int, int)>, r: int, c: int, dead: char) -> char {
    if s.contains((r, c)) {
        '█'
    } else {
        dead
    }
}

/// The characters of `n` cells of row `r`, columns `c0` on.
pub open spec fn row_chars(s: Set<(int, int)>, r: int, c0: int, n: int, dead: char) -> Seq<char>
    decreases n,
{
    if n <= 0 {
        Seq::empty()
    } else {
        row_chars(s, r, c0, n - 1, dead).push(cell_char(s, r, c0 + n - 1, dead))
    }
}

/// `k` rows of a bounding-box picture, rows separated by newlines, dead
/// cells drawn as middle dots.
pub open spec fn boxed_rows(s: Set<(int, int)>, r0: int, c0: int, ncols: int, k: int) -> Seq<char>
    decreases k,
{
    if k <= 0 {
        Seq::empty()
    } else if k == 1 {
        row_chars(s, r0, c0, ncols, '·')
    } else {
        boxed_rows(s, r0, c0, ncols, k - 1) + seq!['\n'] + row_chars(s, r0 + k - 1, c0, ncols, '·')
    }
}

/// `k` rows of a terminal frame, each row ending in a newline, dead cells
/// drawn as spaces.
pub open spec fn frame_rows(s: Set<(int, int)>, r0: int, c0: int, ncols: int, k: int) -> Seq<char>
    decreases k,
{
    if k <= 0 {
        Seq::empty()
    } else {
        frame_rows(s, r0, c0, ncols, k - 1) + row_chars(s, r0 + k - 1, c0, ncols, ' ') + seq!['\n']
    }
}

/// `b` is the tight bounding box of `s`: every live cell lies within it and
/// each of its four edges touches a live cell.
pub open spec fn tight_bounds(s: Set<(int, int)>, b: (int, int, int, int)) -> bool {
    &&& forall|p: (int, int)| s.contains(p) ==> b.0 <= p.0 <= b.2 && b.1 <= p.1 <= b.3
    &&& exists|p: (int, int)| s.contains(p) && p.0 == b.0
    &&& exists|p: (int, int)| s.contains(p) && p.1 == b.1
    &&& exists|p: (int, int)| s.contains(p) && p.0 == b.2
    &&& exists|p: (int, int)| s.contains(p) && p.1 == b.3
}

/// The whole terminal frame: home the cursor and clear the screen, a header
/// with the generation and the population, the visible window with live
/// cells as blocks, and a quit hint.
pub open spec fn frame_spec(
    s: Set<(int, int)>,
    gen: u64,
    pop: int,
    vr0: int,
    vc0: int,
    nrows: int,
    ncols: int,
) -> Seq<char> {
    "\x1b[H\x1b[J Generation: "@ + dec_spec(gen as int) + "  Population: "@ + dec_spec(pop)
        + "\n\n"@ + frame_rows(s, vr0, vc0, ncols, nrows) + "\n Press Ctrl+C to quit.\n"@
}

/// Append the decimal rendering of `n`.
fn push_decimal(buf: &mut String, n: u64)
    ensures
        final(buf)@ == old(buf)@ + dec_spec(n as int),
    decreases n,
{
    let ghost b0 = buf@;
    if n >= 10 {
        push_decimal(buf, n / 10);
    }
    let digits = "0123456789";
    proof {
        reveal_strlit("0123456789");
    }
    let d = (n % 10) as usize;
    let piece = digits.substring_ascii(d, d + 1);
    proof {
        assert(piece@ =~= seq![digit_char(n as int % 10)]);
    }
    buf.append(piece);
    proof {
        assert(buf@ =~= b0 + dec_spec(n as int));
    }
}

/// Append `c1 - c0 + 1` cells of row `r`, live cells as blocks and dead ones
/// as the single character of `dead`.
fn push_row(buf: &mut String, grid: &Grid, r: i64, c0: i64, c1: i64, dead: &str)
    requires
        c0 <= c1,
        dead@.len() == 1,
    ensures
        final(buf)@ == old(buf)@ + row_chars(grid@, r as int, c0 as int, c1 - c0 + 1, dead@[0]),
{
    let ghost b0 = old(buf)@;
    let ghost s = grid@;
    let ghost dc = dead@[0];
    let mut c = c0;
    loop
        invariant_except_break
            buf@ == b0 + row_chars(s, r as int, c0 as int, c - c0, dc),
        invariant
            c0 <= c <= c1,
            s == grid@,
            dead@.len() == 1 && dead@[0] == dc,
        ensures
            buf@ == b0 + row_chars(s, r as int, c0 as int, c1 - c0 + 1, dc),
        decreases c1 - c,
    {
        if grid.is_alive(&(r, c)) {
            buf.append("█");
            proof {
                reveal_strlit("█");
            }
        } else {
            buf.append(dead);
        }
        proof {
            assert(buf@ =~= b0 + row_chars(s, r as int, c0 as int, c - c0 + 1, dc));
        }
        if c == c1 {
            break ;
        }
        c += 1;
    }
}

impl Grid {
    /// A human-readable picture of the bounding box of the live cells, rows
    /// separated by newlines, alive drawn as a full block and dead as a
    /// middle dot; an empty grid renders as "(empty)".
    pub fn to_text(&self) -> (r: String)
        ensures
            self@.is_empty() ==> r@ == "(empty)"@,
            !self@.is_empty() ==> exists|b: (int, int, int, int)|
                #[trigger] tight_bounds(self@, b) && r@ == boxed_rows(
                    self@,
                    b.0,
                    b.1,
                    b.3 - b.1 + 1,
                    b.2 - b.0 + 1,
                ),
    {
        let ghost s = self@;
        match self.bounds() {
            None => {
                let r = String::from_str("(empty)");
                r
            },
            Some((r0, c0, r1, c1)) => {
                let ghost b = (r0 as int, c0 as int, r1 as int, c1 as int);
                proof {
                    assert(tight_bounds(s, b));
                }
                let mut buf = String::new();
                let mut row = r0;
                loop
                    invariant_except_break
                        row > r0 ==> buf@ == boxed_rows(s, r0 as int, c0 as int, c1 - c0 + 1, row - r0) + seq!['\n'],
                        row == r0 ==> buf@ == Seq::<char>::empty(),
                    invariant
                        r0 <= row <= r1,
                        c0 <= c1,
                        s == self@,
                        b == (r0 as int, c0 as int, r1 as int, c1 as int),
                    ensures
                        buf@ == boxed_rows(s, r0 as int, c0 as int, c1 - c0 + 1, r1 - r0 + 1),
                    decreases r1 - row,
                {
                    proof {
                        reveal_strlit("·");
                    }
                    push_row(&mut buf, self, row, c0, c1, "·");
                    proof {
                        assert(buf@ =~= boxed_rows(s, r0 as int, c0 as int, c1 - c0 + 1, row - r0 + 1));
                    }
                    if row == r1 {
                        break ;
                    }
                    buf.append("\n");
                    proof {
                        reveal_strlit("\n");
                        assert(buf@ =~= boxed_rows(s, r0 as int, c0 as int, c1 - c0 + 1, row - r0 + 1) + seq!['\n']);
                    }
                    row += 1;
                }
                proof {
                    assert(!s.is_empty()) by {
                        let p = choose|p: (int, int)| s.contains(p) && p.0 == b.0;
                        assert(s.contains(p));
                    }
                }
                buf
            },
        }
    }
}

/// Build one terminal frame of the window `vr0..=vr1` by `vc0..=vc1`: an
/// ANSI home-and-clear prefix, a header with the generation and population,
/// the window rows with live cells as blocks and dead cells as spaces, and a
/// quit hint.
pub fn render(grid: &Grid, vr0: i64, vc0: i64, vr1: i64, vc1: i64) -> (r: String)
    requires
        vr0 <= vr1,
        vc0 <= vc1,
    ensures
        r@ == frame_spec(
            grid@,
            grid.spec_generation(),
            grid@.len() as int,
            vr0 as int,
            vc0 as int,
            vr1 - vr0 + 1,
            vc1 - vc0 + 1,
        ),
{
    let ghost s = grid@;
    let mut buf = String::from_str("\x1b[H\x1b[J Generation: ");
    push_decimal(&mut buf, grid.generation());
    buf.append("  Population: ");
    push_decimal(&mut buf, grid.population() as u64);
    buf.append("\n\n");
    let ghost header = "\x1b[H\x1b[J Generation: "@ + dec_spec(grid.spec_generation() as int)
        + "  Population: "@ + dec_spec(s.len() as int) + "\n\n"@;
    proof {
        assert(buf@ =~= header);
    }
    let mut row = vr0;
    loop
        invariant_except_break
            buf@ == header + frame_rows(s, vr0 as int, vc0 as int, vc1 - vc0 + 1, row - vr0),
        invariant
            vr0 <= row <= vr1,
            vc0 <= vc1,
            s == grid@,
        ensures
            buf@ == header + frame_rows(s, vr0 as int, vc0 as int, vc1 - vc0 + 1, vr1 - vr0 + 1),
        decreases vr1 - row,
    {
        proof {
            reveal_strlit(" ");
        }
        push_row(&mut buf, grid, row, vc0, vc1, " ");
        buf.append("\n");
        proof {
            reveal_strlit("\n");
            assert(buf@ =~= header + frame_rows(s, vr0 as int, vc0 as int, vc1 - vc0 + 1, row - vr0 + 1));
        }
        if row == vr1 {
            break ;
        }
        row += 1;
    }
    buf.append("\n Press Ctrl+C to quit.\n");
    proof {
        assert(buf@ =~= frame_spec(
            s,
            grid.spec_generation(),
            s.len() as int,
            vr0 as int,
            vc0 as int,
            vr1 - vr0 + 1,
            vc1 - vc0 + 1,
        ));
    }
    buf
}

/// The log line written when a scene is loaded by the schedule.
pub fn scene_log_line(name: &str, gen: u32) -> (r: String)
    ensures
        r@ == "Scene: "@ + name@ + " (gen "@ + dec_spec(gen as int) + ")"@,
{
    let mut buf = String::from_str("Scene: ");
    buf.append(name);
    buf.append(" (gen ");
    push_decimal(&mut buf, gen as u64);
    buf.append(")");
    buf
}

/// The log line written when the button rerolls the current scene.
pub fn reroll_log_line(name: &str) -> (r: String)
    ensures
        r@ == "Reroll: "@ + name@ + " (button)"@,
{
    let mut buf = String::from_str("Reroll: ");
    buf.append(name);
    buf.append(" (button)");
    buf
}

/// A pattern text with each live character replaced by a full block and
/// each dead character by a middle dot, newlines kept.
pub open spec fn charmap(s: Seq<char>) -> Seq<char> {
    Seq::new(
        s.len(),
        |i: int|
            if s[i] == '\n' {
                '\n'
            } else if alive_char(s[i]) {
                '█'
            } else {
                '·'
            },
    )
}

/// One rendered row of a parsed rectangular text matches the text's row,
/// character for character.
proof fn lemma_row_charmap(s: Seq<char>, rows: int, cols: int, r: int, n: int)
    requires
        rectangular(s, rows, cols),
        0 <= r < rows,
        0 <= n <= cols,
    ensures
        row_chars(pattern_cells(s), r, 0, n, '·') =~= charmap(s).subrange(
            r * (cols + 1),
            r * (cols + 1) + n,
        ),
    decreases n,
{
    let p = pattern_cells(s);
    let width = cols + 1;
    lemma_parse_rectangular(s, rows, cols);
    assert(0 <= r * width && r * width + cols <= s.len()) by (nonlinear_arith)
        requires
            0 <= r < rows,
            width == cols + 1,
            0 <= cols,
            s.len() == rows * width - 1,
    ;
    if n == 0 {
    } else {
        lemma_row_charmap(s, rows, cols, r, n - 1);
        let i = r * width + (n - 1);
        vstd::arithmetic::div_mod::lemma_fundamental_div_mod_converse(i, width, r, n - 1);
        assert(i % width == n - 1);
        assert(s[i] != '\n');
        assert(p.contains((r, n - 1)) <==> alive_char(s[i]));
        assert(cell_char(p, r, n - 1, '·') == charmap(s)[i]);
    }
}

/// Round trip of the pattern codec: parsing a rectangular pattern text and
/// rendering its `rows` by `cols` box anchored at the origin reproduces the
/// text, with live characters as full blocks and dead ones as middle dots.
pub proof fn lemma_codec_round_trip(s: Seq<char>, rows: int, cols: int)
    requires
        rectangular(s, rows, cols),
    ensures
        boxed_rows(pattern_cells(s), 0, 0, cols, rows) == charmap(s),
{
    lemma_boxed_prefix(s, rows, cols, rows);
    assert(rows * (cols + 1) - 1 == s.len());
    assert(charmap(s).subrange(0, s.len() as int) =~= charmap(s));
}

/// The first `k` rendered rows of a parsed rectangular text match the first
/// `k` text rows with their separators.
proof fn lemma_boxed_prefix(s: Seq<char>, rows: int, cols: int, k: int)
    requires
        rectangular(s, rows, cols),
        1 <= k <= rows,
    ensures
        boxed_rows(pattern_cells(s), 0, 0, cols, k) =~= charmap(s).subrange(
            0,
            k * (cols + 1) - 1,
        ),
    decreases k,
{
    let p = pattern_cells(s);
    let width = cols + 1;
    assert(k * width - 1 <= s.len() && 0 <= (k - 1) * width && (k - 1) * width + width == k
        * width) by (nonlinear_arith)
        requires
            1 <= k <= rows,
            width == cols + 1,
            1 <= cols,
            s.len() == rows * width - 1,
    ;
    if k == 1 {
        lemma_row_charmap(s, rows, cols, 0, cols);
        assert(boxed_rows(p, 0, 0, cols, 1) == row_chars(p, 0, 0, cols, '·'));
        assert(charmap(s).subrange(0, cols) =~= charmap(s).subrange(0 * width, 0 * width + cols));
    } else {
        lemma_boxed_prefix(s, rows, cols, k - 1);
        lemma_row_charmap(s, rows, cols, k - 1, cols);
        let sep = (k - 1) * width - 1;
        assert(sep == (k - 2) * width + cols && width <= (k - 1) * width) by (nonlinear_arith)
            requires
                sep == (k - 1) * width - 1,
                width == cols + 1,
                2 <= k,
                2 <= width,
        ;
        vstd::arithmetic::div_mod::lemma_fundamental_div_mod_converse(sep, width, k - 2, cols);
        assert(sep % width == cols);
        assert(charmap(s)[sep] == '\n');
        assert(boxed_rows(p, 0, 0, cols, k - 1).len() == (k - 1) * width - 1);
        assert(row_chars(p, k - 1, 0, cols, '·').len() == cols);
        assert(row_chars(p, k - 1, 0, cols, '·') =~= charmap(s).subrange(
            (k - 1) * width,
            (k - 1) * width + cols,
        ));
        assert(boxed_rows(p, 0, 0, cols, k) =~= charmap(s).subrange(0, k * width - 1)) by {
            assert(boxed_rows(p, 0, 0, cols, k) == boxed_rows(p, 0, 0, cols, k - 1) + seq!['\n']
                + row_chars(p, 0 + k - 1, 0, cols, '·'));
            assert forall|j: int| 0 <= j < k * width - 1 implies boxed_rows(p, 0, 0, cols, k)[j]
                == charmap(s)[j] by {
                if j < (k - 1) * width - 1 {
                    assert(boxed_rows(p, 0, 0, cols, k)[j] == boxed_rows(p, 0, 0, cols, k - 1)[j]);
                    assert(charmap(s).subrange(0, (k - 1) * width - 1)[j] == charmap(s)[j]);
                } else if j == (k - 1) * width - 1 {
                    assert(boxed_rows(p, 0, 0, cols, k)[j] == '\n');
                } else {
                    let off = j - (k - 1) * width;
                    assert(0 <= off < cols);
                    assert(boxed_rows(p, 0, 0, cols, k)[j] == row_chars(p, k - 1, 0, cols, '·')[off]);
                    assert(charmap(s).subrange((k - 1) * width, (k - 1) * width + cols)[off]
                        == charmap(s)[j]);
                }
            }
        }
    }
}

/// The tight bounding box of a set of cells is unique.
pub proof fn lemma_tight_bounds_unique(
    s: Set<(int, int)>,
    b1: (int, int, int, int),
    b2: (int, int, int, int),
)
    requires
        tight_bounds(s, b1),
        tight_bounds(s, b2),
    ensures
        b1 == b2,
{
    let p0 = choose|p: (int, int)| s.contains(p) && p.0 == b1.0;
    let p1 = choose|p: (int, int)| s.contains(p) && p.1 == b1.1;
    let p2 = choose|p: (int, int)| s.contains(p) && p.0 == b1.2;
    let p3 = choose|p: (int, int)| s.contains(p) && p.1 == b1.3;
    let q0 = choose|p: (int, int)| s.contains(p) && p.0 == b2.0;
    let q1 = choose|p: (int, int)| s.contains(p) && p.1 == b2.1;
    let q2 = choose|p: (int, int)| s.contains(p) && p.0 == b2.2;
    let q3 = choose|p: (int, int)| s.contains(p) && p.1 == b2.3;
    assert(b1.0 == b2.0 && b1.1 == b2.1 && b1.2 == b2.2 && b1.3 == b2.3);
}

/// The screen pixel `(sx, sy)` of a window anchored at the viewport shows a
/// live cell: the window wraps toroidally around the world.
pub open spec fn window_lit(g: DenseGrid, vp: Viewport, sx: int, sy: int) -> bool {
    g.live(
        (vp.spec_x() + sx) % g.spec_width(),
        (vp.spec_y() + sy) % g.spec_height(),
    )
}

/// The screen pixels to light for a `screen_w` by `screen_h` window into the
/// world, anchored at the viewport position with toroidal wrap: exactly the
/// window coordinates of live cells, each listed once.
pub fn window_cells(grid: &DenseGrid, vp: &Viewport, screen_w: u32, screen_h: u32) -> (v: Vec<
    (u32, u32),
>)
    requires
        grid.wf(),
        grid.spec_width() == vp.spec_w() as int,
        grid.spec_height() == vp.spec_h() as int,
        1 <= screen_w && 1 <= screen_h,
    ensures
        v@.no_duplicates(),
        forall|p: (u32, u32)| #[trigger]
            v@.contains(p) <==> (p.0 < screen_w && p.1 < screen_h && window_lit(
                *grid,
                *vp,
                p.0 as int,
                p.1 as int,
            )),
{
    let w = grid.width();
    let h = grid.height();
    let x0 = vp.x();
    let y0 = vp.y();
    let mut v: Vec<(u32, u32)> = Vec::new();
    let mut sy: u32 = 0;
    while sy < screen_h
        invariant
            grid.wf(),
            w == grid.spec_width(),
            h == grid.spec_height(),
            x0 == vp.spec_x() && x0 < w as u32,
            y0 == vp.spec_y() && y0 < h as u32,
            w <= 0x1000_0000 && h <= 0x1000_0000,
            sy <= screen_h,
            v@.no_duplicates(),
            forall|p: (u32, u32)| #[trigger]
                v@.contains(p) <==> (p.0 < screen_w && p.1 < sy && window_lit(
                    *grid,
                    *vp,
                    p.0 as int,
                    p.1 as int,
                )),
        decreases screen_h - sy,
    {
        let mut sx: u32 = 0;
        while sx < screen_w
            invariant
                grid.wf(),
                w == grid.spec_width(),
                h == grid.spec_height(),
                x0 == vp.spec_x() && x0 < w as u32,
                y0 == vp.spec_y() && y0 < h as u32,
                w <= 0x1000_0000 && h <= 0x1000_0000,
                sy < screen_h,
                sx <= screen_w,
                v@.no_duplicates(),
                forall|p: (u32, u32)| #[trigger]
                    v@.contains(p) <==> ((p.0 < screen_w && p.1 < sy && window_lit(
                        *grid,
                        *vp,
                        p.0 as int,
                        p.1 as int,
                    )) || (p.0 < sx && p.1 == sy && window_lit(*grid, *vp, p.0 as int, p.1 as int))),
            decreases screen_w - sx,
        {
            let wx = ((x0 as u64 + sx as u64) % (w as u64)) as usize;
            let wy = ((y0 as u64 + sy as u64) % (h as u64)) as usize;
            let ghost pre = v@;
            if grid.get(wx, wy) {
                proof {
                    assert(!pre.contains((sx, sy)));
                }
                v.push((sx, sy));
                proof {
                    assert forall|p: (u32, u32)| #[trigger]
                        v@.contains(p) <==> (pre.contains(p) || p == (sx, sy)) by {
                        if v@.contains(p) {
                            let k = choose|k: int| 0 <= k < v@.len() && v@[k] == p;
                            if k < pre.len() {
                                assert(pre.contains(p));
                            }
                        }
                        if pre.contains(p) {
                            let k = choose|k: int| 0 <= k < pre.len() && pre[k] == p;
                            assert(v@[k] == p);
                        }
                        if p == (sx, sy) {
                            assert(v@[v@.len() - 1] == p);
                        }
                    }
                    assert forall|a: int, b: int|
                        0 <= a < v@.len() && 0 <= b < v@.len() && a != b implies v@[a] != v@[b] by {
                        if a < pre.len() && b < pre.len() {
                            assert(pre[a] != pre[b]);
                        } else if b == pre.len() {
                            assert(pre.contains(pre[a]));
                        } else {
                            assert(pre.contains(pre[b]));
                        }
                    }
                }
            }
            sx += 1;
        }
        sy += 1;
    }
    v
}

} // verus!
