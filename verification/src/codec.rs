//! Codec for ASCII-art Life patterns.
//!
//! A pattern is a multi-line text: row `r` corresponds to successive lines
//! (top to bottom), column `c` to characters within a line (left to right),
//! and a cell is alive iff its character is `#` or `O`.

use vstd::prelude::*;
use vstd::arithmetic::div_mod::lemma_fundamental_div_mod_converse;

verus! {

/// A pattern character is alive iff it is `#` or `O`.
pub open spec fn alive_char(ch: char) -> bool {
    ch == '#' || ch == 'O'
}

/// The live positions of a pattern text read from index `i` on, the cursor
/// standing at row `r`, column `c`: a newline moves the cursor to the start
/// of the next row, any other character advances it one column and
/// contributes its position when it is alive.
pub open spec fn pattern_cells_at(s: Seq<char>, i: int, r: int, c: int) -> Set<(int, int)>
    decreases s.len() - i,
{
    if i < 0 || i >= s.len() {
        Set::empty()
    } else if s[i] == '\n' {
        pattern_cells_at(s, i + 1, r + 1, 0)
    } else if alive_char(s[i]) {
        pattern_cells_at(s, i + 1, r, c + 1).insert((r, c))
    } else {
        pattern_cells_at(s, i + 1, r, c + 1)
    }
}

/// The live positions of a whole pattern text, anchored at the origin.
pub open spec fn pattern_cells(s: Seq<char>) -> Set<(int, int)> {
    pattern_cells_at(s, 0, 0, 0)
}

/// The set of positions held by a sequence of row/column pairs.
pub open spec fn pset(v: Seq<(usize, usize)>) -> Set<(int, int)> {
    v.map_values(|p: (usize, usize)| (p.0 as int, p.1 as int)).to_set()
}

/// A position held by a pair sequence is the position of one of its pairs,
/// and conversely.
pub proof fn lemma_pset_contains(v: Seq<(usize, usize)>, p: (usize, usize))
    ensures
        pset(v).contains((p.0 as int, p.1 as int)) <==> v.contains(p),
{
    let m = v.map_values(|q: (usize, usize)| (q.0 as int, q.1 as int));
    if v.contains(p) {
        let i = choose|i: int| 0 <= i < v.len() && v[i] == p;
        assert(m[i] == (p.0 as int, p.1 as int));
        assert(m.contains((p.0 as int, p.1 as int)));
    }
    if m.contains((p.0 as int, p.1 as int)) {
        let i = choose|i: int| 0 <= i < m.len() && m[i] == (p.0 as int, p.1 as int);
        assert(v[i].0 == p.0 && v[i].1 == p.1);
        assert(v.contains(p));
    }
}

/// Every position held by a pair sequence comes from one of its pairs.
pub proof fn lemma_pset_elem(v: Seq<(usize, usize)>, p: (int, int))
    requires
        pset(v).contains(p),
    ensures
        exists|q: (usize, usize)| v.contains(q) && q.0 == p.0 && q.1 == p.1,
{
    let m = v.map_values(|q: (usize, usize)| (q.0 as int, q.1 as int));
    let i = choose|i: int| 0 <= i < m.len() && m[i] == p;
    assert(v.contains(v[i]) && v[i].0 == p.0 && v[i].1 == p.1);
}

/// Appending a pair adds exactly its position to the held set.
proof fn lemma_pset_push(v: Seq<(usize, usize)>, p: (usize, usize))
    ensures
        pset(v.push(p)) == pset(v).insert((p.0 as int, p.1 as int)),
{
    let v1 = v.push(p);
    assert forall|q: (int, int)| #[trigger] pset(v1).contains(q) implies pset(v).insert(
        (p.0 as int, p.1 as int),
    ).contains(q) by {
        lemma_pset_elem(v1, q);
        let e = choose|e: (usize, usize)| v1.contains(e) && e.0 == q.0 && e.1 == q.1;
        let i = choose|i: int| 0 <= i < v1.len() && v1[i] == e;
        if i < v.len() {
            assert(v.contains(e));
            lemma_pset_contains(v, e);
        } else {
            assert(e == p);
        }
    }
    assert forall|q: (int, int)| pset(v).insert((p.0 as int, p.1 as int)).contains(
        q,
    ) implies #[trigger] pset(v1).contains(q) by {
        if q == (p.0 as int, p.1 as int) {
            assert(v1[v.len() as int] == p);
            assert(v1.contains(p));
            lemma_pset_contains(v1, p);
        } else {
            lemma_pset_elem(v, q);
            let e = choose|e: (usize, usize)| v.contains(e) && e.0 == q.0 && e.1 == q.1;
            let i = choose|i: int| 0 <= i < v.len() && v[i] == e;
            assert(v1[i] == e);
            assert(v1.contains(e));
            lemma_pset_contains(v1, e);
        }
    }
    assert(pset(v1) =~= pset(v).insert((p.0 as int, p.1 as int)));
}

/// Taking one more pair extends the held set by its position.
pub proof fn lemma_pset_push_take(v: Seq<(usize, usize)>, i: int)
    requires
        0 <= i < v.len(),
    ensures
        pset(v.take(i + 1)) == pset(v.take(i)).insert((v[i].0 as int, v[i].1 as int)),
{
    assert(v.take(i + 1) == v.take(i).push(v[i]));
    lemma_pset_push(v.take(i), v[i]);
}

/// Parse a pattern text into the list of its live cells as
/// `(row, column)` pairs, each cell listed exactly once.
pub fn parse_pattern(s: &str) -> (v: Vec<(usize, usize)>)
    ensures
        v@.no_duplicates(),
        pset(v@) == pattern_cells(s@),
        forall|k: int| 0 <= k < v@.len() ==> (#[trigger] v@[k]).0 < s@.len() && v@[k].1 < s@.len(),
{
    let mut v: Vec<(usize, usize)> = Vec::new();
    let len = s.unicode_len();
    let mut i: usize = 0;
    let mut r: usize = 0;
    let mut c: usize = 0;
    while i < len
        invariant
            len == s@.len(),
            i <= len,
            r <= i,
            c <= i,
            v@.no_duplicates(),
            forall|k: int|
                0 <= k < v@.len() ==> ((#[trigger] v@[k]).0 < r || (v@[k].0 == r && v@[k].1 < c)),
            forall|k: int| 0 <= k < v@.len() ==> (#[trigger] v@[k]).0 < len && v@[k].1 < len,
            pattern_cells(s@) == pset(v@).union(pattern_cells_at(s@, i as int, r as int, c as int)),
        decreases len - i,
    {
        let ch = s.get_char(i);
        let ghost pre = v@;
        if ch == '\n' {
            r = r + 1;
            c = 0;
        } else {
            if ch == '#' || ch == 'O' {
                proof {
                    assert(!pre.contains((r, c)));
                    lemma_pset_push(pre, (r, c));
                }
                v.push((r, c));
                proof {
                    assert forall|a: int, b: int|
                        0 <= a < v@.len() && 0 <= b < v@.len() && a != b implies v@[a] != v@[b] by {
                        if a < pre.len() && b < pre.len() {
                            assert(pre[a] != pre[b]);
                        } else if b == pre.len() {
                            assert(v@[b] == (r, c));
                            assert(pre[a].0 < r || (pre[a].0 == r && pre[a].1 < c));
                        } else {
                            assert(v@[a] == (r, c));
                            assert(pre[b].0 < r || (pre[b].0 == r && pre[b].1 < c));
                        }
                    }
                    assert(pattern_cells_at(s@, i as int, r as int, c as int)
                        == pattern_cells_at(s@, i + 1, r as int, c + 1).insert(
                        (r as int, c as int),
                    ));
                    assert(pset(v@).union(pattern_cells_at(s@, i + 1, r as int, c + 1)) =~= pset(
                        pre,
                    ).union(pattern_cells_at(s@, i as int, r as int, c as int)));
                }
            }
            c = c + 1;
        }
        i = i + 1;
    }
    proof {
        assert(pattern_cells_at(s@, i as int, r as int, c as int) == Set::<(int, int)>::empty());
        assert(pattern_cells(s@) =~= pset(v@));
    }
    v
}

/// A rectangular pattern text: `rows` lines of exactly `cols` characters,
/// separated by single newlines, with no trailing newline; a character is a
/// newline exactly at the separator positions.
pub open spec fn rectangular(s: Seq<char>, rows: int, cols: int) -> bool {
    &&& 1 <= rows && 1 <= cols
    &&& s.len() == rows * (cols + 1) - 1
    &&& forall|i: int| 0 <= i < s.len() ==> ((s[i] == '\n') <==> (i % (cols + 1) == cols))
}

/// Parse correctness from a mid-text cursor: reading a rectangular text from
/// row `r`, column `c` yields exactly the live positions at or after the
/// cursor in reading order.
proof fn lemma_parse_rect_at(s: Seq<char>, rows: int, cols: int, r: int, c: int)
    requires
        rectangular(s, rows, cols),
        0 <= r < rows,
        0 <= c <= cols,
        r * (cols + 1) + c <= s.len(),
    ensures
        forall|p: (int, int)|
            pattern_cells_at(s, r * (cols + 1) + c, r, c).contains(p) <==> ((p.0 == r && c <= p.1
                < cols && alive_char(s[p.0 * (cols + 1) + p.1])) || (r < p.0 < rows && 0 <= p.1
                < cols && alive_char(s[p.0 * (cols + 1) + p.1]))),
    decreases s.len() - (r * (cols + 1) + c),
{
    let width = cols + 1;
    let i = r * width + c;
    assert(0 <= r * width) by (nonlinear_arith)
        requires
            0 <= r,
            0 < width,
    ;
    if i == s.len() {
        assert(r == rows - 1 && c == cols) by (nonlinear_arith)
            requires
                r * width + c == rows * width - 1,
                0 <= r < rows,
                0 <= c <= cols,
                width == cols + 1,
                1 <= cols,
        ;
        assert(pattern_cells_at(s, i, r, c) == Set::<(int, int)>::empty());
        assert forall|p: (int, int)|
            !((p.0 == r && c <= p.1 < cols && alive_char(s[p.0 * width + p.1])) || (r < p.0 < rows
                && 0 <= p.1 < cols && alive_char(s[p.0 * width + p.1]))) by {
        }
    } else {
        lemma_fundamental_div_mod_converse(i, width, r, c);
        assert(i % width == c);
        if c == cols {
            assert(s[i] == '\n');
            assert((rows - 1) * width == rows * width - width) by (nonlinear_arith);
            assert(r * width < (rows - 1) * width);
            vstd::arithmetic::mul::lemma_mul_strict_inequality_converse(r, rows - 1, width);
            assert(r + 1 < rows);
            assert((r + 1) * width + 0 == i + 1) by (nonlinear_arith)
                requires
                    i == r * width + c,
                    c == cols,
                    width == cols + 1,
            ;
            lemma_parse_rect_at(s, rows, cols, r + 1, 0);
            assert(pattern_cells_at(s, i, r, c) == pattern_cells_at(s, i + 1, r + 1, 0));
            assert forall|p: (int, int)|
                pattern_cells_at(s, i, r, c).contains(p) <==> ((p.0 == r && c <= p.1 < cols
                    && alive_char(s[p.0 * width + p.1])) || (r < p.0 < rows && 0 <= p.1 < cols
                    && alive_char(s[p.0 * width + p.1]))) by {
                assert(pattern_cells_at(s, i + 1, r + 1, 0).contains(p) <==> ((p.0 == r + 1 && 0
                    <= p.1 < cols && alive_char(s[p.0 * width + p.1])) || (r + 1 < p.0 < rows && 0
                    <= p.1 < cols && alive_char(s[p.0 * width + p.1]))));
            }
        } else {
            assert(s[i] != '\n');
            assert(r * width + (c + 1) == i + 1);
            lemma_parse_rect_at(s, rows, cols, r, c + 1);
            assert forall|p: (int, int)|
                pattern_cells_at(s, i, r, c).contains(p) <==> ((p.0 == r && c <= p.1 < cols
                    && alive_char(s[p.0 * width + p.1])) || (r < p.0 < rows && 0 <= p.1 < cols
                    && alive_char(s[p.0 * width + p.1]))) by {
                assert(pattern_cells_at(s, i + 1, r, c + 1).contains(p) <==> ((p.0 == r && c + 1
                    <= p.1 < cols && alive_char(s[p.0 * width + p.1])) || (r < p.0 < rows && 0
                    <= p.1 < cols && alive_char(s[p.0 * width + p.1]))));
                if alive_char(s[i]) {
                    assert(pattern_cells_at(s, i, r, c) == pattern_cells_at(
                        s,
                        i + 1,
                        r,
                        c + 1,
                    ).insert((r, c)));
                    if p == (r, c) {
                        assert(s[p.0 * width + p.1] == s[i]);
                    }
                } else {
                    assert(pattern_cells_at(s, i, r, c) == pattern_cells_at(s, i + 1, r, c + 1));
                    if p == (r, c) {
                        assert(s[p.0 * width + p.1] == s[i]);
                    }
                }
            }
        }
    }
}

/// Parse correctness on a whole rectangular text: the live positions are
/// exactly the in-range positions whose character is alive.
pub proof fn lemma_parse_rectangular(s: Seq<char>, rows: int, cols: int)
    requires
        rectangular(s, rows, cols),
    ensures
        forall|p: (int, int)|
            pattern_cells(s).contains(p) <==> (0 <= p.0 < rows && 0 <= p.1 < cols && alive_char(
                s[p.0 * (cols + 1) + p.1],
            )),
{
    lemma_parse_rect_at(s, rows, cols, 0, 0);
}

} // verus!
