//! Sparse evolver for Conway's Game of Life on the infinite plane.
//!
//! Only live cells are stored, so one generation costs time proportional to
//! the number of live cells and their neighborhoods; dead regions cost
//! nothing. The mathematical model of a grid is the set of live positions as
//! a `Set<(int, int)>`, together with a generation counter.

use vstd::prelude::*;
use vstd::seq_lib::*;

verus! {

use crate::codec::pattern_cells;
use crate::codec::pset;
use crate::codec::lemma_pset_contains;
use crate::codec::lemma_pset_push_take;

/// A cell coordinate on the infinite plane: `(row, column)`.
pub type Cell = (i64, i64);

/// The mathematical position of a cell.
pub open spec fn cell_math(c: Cell) -> (int, int) {
    (c.0 as int, c.1 as int)
}

/// The set of positions held by a sequence of cells.
pub open spec fn cset(s: Seq<Cell>) -> Set<(int, int)> {
    s.map_values(|c: Cell| cell_math(c)).to_set()
}

/// 1 if `s` holds `p`, else 0.
pub open spec fn ind(s: Set<(int, int)>, p: (int, int)) -> int {
    if s.contains(p) {
        1
    } else {
        0
    }
}

/// Number of live cells among the eight neighbors of `p`.
pub open spec fn neighbor_count(s: Set<(int, int)>, p: (int, int)) -> int {
    ind(s, (p.0 - 1, p.1 - 1)) + ind(s, (p.0 - 1, p.1)) + ind(s, (p.0 - 1, p.1 + 1)) + ind(
        s,
        (p.0, p.1 - 1),
    ) + ind(s, (p.0, p.1 + 1)) + ind(s, (p.0 + 1, p.1 - 1)) + ind(s, (p.0 + 1, p.1)) + ind(
        s,
        (p.0 + 1, p.1 + 1),
    )
}

/// The B3/S23 rule: `p` is alive after one generation of `s` iff it has
/// exactly three live neighbors, or it is alive and has exactly two.
pub open spec fn next_alive(s: Set<(int, int)>, p: (int, int)) -> bool {
    neighbor_count(s, p) == 3 || (neighbor_count(s, p) == 2 && s.contains(p))
}

/// One generation of the B3/S23 rule on the infinite plane.
pub open spec fn step_spec(s: Set<(int, int)>) -> Set<(int, int)> {
    Set::new(|p: (int, int)| next_alive(s, p))
}

/// `n` generations of the B3/S23 rule.
pub open spec fn step_iter(s: Set<(int, int)>, n: nat) -> Set<(int, int)>
    decreases n,
{
    if n == 0 {
        s
    } else {
        step_spec(step_iter(s, (n - 1) as nat))
    }
}

/// Every live position is strictly inside the 64-bit coordinate range, so
/// each of its neighbors is representable.
pub open spec fn inward(s: Set<(int, int)>) -> bool {
    forall|p: (int, int)|
        s.contains(p) ==> i64::MIN < p.0 < i64::MAX && i64::MIN < p.1 < i64::MAX
}

/// `p` lies within the 3x3 block centered on `q`.
pub open spec fn near(q: (int, int), p: (int, int)) -> bool {
    -1 <= p.0 - q.0 <= 1 && -1 <= p.1 - q.1 <= 1
}

/// All positions within one cell of some member of `s`.
pub open spec fn block_of(s: Set<(int, int)>) -> Set<(int, int)> {
    Set::new(|p: (int, int)| exists|q: (int, int)| s.contains(q) && near(q, p))
}

/// `s` shifted by `(dr, dc)`.
pub open spec fn translate(s: Set<(int, int)>, dr: int, dc: int) -> Set<(int, int)> {
    Set::new(|p: (int, int)| s.contains((p.0 - dr, p.1 - dc)))
}

/// Sparse representation of an infinite Game of Life grid.
/// Only live cells are stored.
#[derive(Debug)]
pub struct Grid {
    alive: Vec<Cell>,
    generation: u64,
}

impl View for Grid {
    type V = Set<(int, int)>;

    closed spec fn view(&self) -> Set<(int, int)> {
        cset(self.alive@)
    }
}

/// A position held by a cell sequence is a position of one of its cells, and
/// conversely; two cells at the same position are the same cell.
proof fn lemma_cset_contains(s: Seq<Cell>, c: Cell)
    ensures
        cset(s).contains(cell_math(c)) <==> s.contains(c),
{
    let m = s.map_values(|x: Cell| cell_math(x));
    if s.contains(c) {
        let i = choose|i: int| 0 <= i < s.len() && s[i] == c;
        assert(m[i] == cell_math(c));
        assert(m.contains(cell_math(c)));
    }
    if m.contains(cell_math(c)) {
        let i = choose|i: int| 0 <= i < m.len() && m[i] == cell_math(c);
        assert(cell_math(s[i]) == cell_math(c));
        assert(s[i].0 == c.0 && s[i].1 == c.1);
        assert(s.contains(c));
    }
}

/// Every position held by a cell sequence comes from one of its cells, so it
/// is within the 64-bit range.
proof fn lemma_cset_elem(s: Seq<Cell>, p: (int, int))
    requires
        cset(s).contains(p),
    ensures
        exists|c: Cell| s.contains(c) && cell_math(c) == p,
        i64::MIN <= p.0 <= i64::MAX && i64::MIN <= p.1 <= i64::MAX,
{
    let m = s.map_values(|x: Cell| cell_math(x));
    let i = choose|i: int| 0 <= i < m.len() && m[i] == p;
    assert(s.contains(s[i]) && cell_math(s[i]) == p);
}

/// A duplicate-free cell sequence holds as many positions as cells.
proof fn lemma_cset_len(s: Seq<Cell>)
    requires
        s.no_duplicates(),
    ensures
        cset(s).len() == s.len(),
        cset(s).finite(),
{
    let m = s.map_values(|x: Cell| cell_math(x));
    assert forall|i: int, j: int| 0 <= i < m.len() && 0 <= j < m.len() && i != j implies m[i]
        != m[j] by {
        assert(s[i] != s[j]);
        assert(cell_math(s[i]) == m[i] && cell_math(s[j]) == m[j]);
        if m[i] == m[j] {
            assert(s[i].0 == s[j].0 && s[i].1 == s[j].1);
        }
    }
    m.unique_seq_to_set();
}

/// Appends a cell unless its position is already held.
fn push_unique(v: &mut Vec<Cell>, cell: Cell)
    requires
        old(v)@.no_duplicates(),
    ensures
        final(v)@.no_duplicates(),
        cset(final(v)@) == cset(old(v)@).insert(cell_math(cell)),
{
    let present = vec_contains(v, cell);
    proof {
        lemma_cset_contains(v@, cell);
    }
    if !present {
        proof {
            lemma_cset_push(v@, cell);
        }
        v.push(cell);
        proof {
            let s0 = old(v)@;
            let s1 = v@;
            assert(s1 == s0.push(cell));
            assert forall|i: int, j: int|
                0 <= i < s1.len() && 0 <= j < s1.len() && i != j implies s1[i] != s1[j] by {
                if i < s0.len() && j < s0.len() {
                    assert(s0[i] != s0[j]);
                } else if j == s0.len() {
                    assert(s1[j] == cell);
                    assert(s0.contains(s0[i]));
                } else {
                    assert(s1[i] == cell);
                    assert(s0.contains(s0[j]));
                }
            }
        }
    } else {
        proof {
            assert(cset(v@).insert(cell_math(cell)) =~= cset(v@));
        }
    }
}

/// Whether the sequence holds this cell.
fn vec_contains(v: &Vec<Cell>, cell: Cell) -> (r: bool)
    ensures
        r == v@.contains(cell),
{
    let n = v.len();
    let mut i: usize = 0;
    while i < n
        invariant
            n == v@.len(),
            i <= n,
            forall|k: int| 0 <= k < i ==> v@[k] != cell,
        decreases n - i,
    {
        let c = v[i];
        if c.0 == cell.0 && c.1 == cell.1 {
            assert(v@[i as int] == cell);
            return true;
        }
        i += 1;
    }
    false
}

/// The index of this cell in the sequence, if it stands there.
fn index_of(v: &Vec<Cell>, cell: Cell) -> (r: Option<usize>)
    ensures
        match r {
            Some(i) => i < v@.len() && v@[i as int] == cell,
            None => !v@.contains(cell),
        },
{
    let n = v.len();
    let mut i: usize = 0;
    while i < n
        invariant
            n == v@.len(),
            i <= n,
            forall|k: int| 0 <= k < i ==> v@[k] != cell,
        decreases n - i,
    {
        let c = v[i];
        if c.0 == cell.0 && c.1 == cell.1 {
            assert(v@[i as int] == cell);
            return Some(i);
        }
        i += 1;
    }
    None
}

impl Grid {
    /// The generation counter.
    pub closed spec fn spec_generation(self) -> u64 {
        self.generation
    }

    #[verifier::type_invariant]
    spec fn wf(self) -> bool {
        self.alive@.no_duplicates()
    }

    /// Create an empty grid.
    pub fn new() -> (r: Self)
        ensures
            r@ == Set::<(int, int)>::empty(),
            r.spec_generation() == 0,
    {
        let r = Grid { alive: Vec::new(), generation: 0 };
        proof {
            assert(r@ =~= Set::<(int, int)>::empty());
        }
        r
    }

    /// Create a grid from a slice of live cell positions.
    pub fn from_cells(cells: &[Cell]) -> (r: Self)
        ensures
            r@ == cset(cells@),
            r.spec_generation() == 0,
    {
        let mut alive: Vec<Cell> = Vec::new();
        let n = cells.len();
        let mut i: usize = 0;
        while i < n
            invariant
                n == cells@.len(),
                i <= n,
                alive@.no_duplicates(),
                cset(alive@) == cset(cells@.take(i as int)),
            decreases n - i,
        {
            let c = cells[i];
            push_unique(&mut alive, c);
            proof {
                assert(cells@.take(i + 1) == cells@.take(i as int).push(c));
                lemma_cset_push(cells@.take(i as int), c);
            }
            i += 1;
        }
        proof {
            assert(cells@.take(n as int) == cells@);
        }
        Grid { alive, generation: 0 }
    }

    /// The generation counter: how many steps this grid has taken.
    pub fn generation(&self) -> (r: u64)
        ensures
            r == self.spec_generation(),
    {
        self.generation
    }

    /// The number of live cells.
    pub fn population(&self) -> (r: usize)
        ensures
            r == self@.len(),
    {
        proof {
            use_type_invariant(&*self);
            lemma_cset_len(self.alive@);
        }
        self.alive.len()
    }

    /// Whether this cell is alive.
    pub fn is_alive(&self, cell: &Cell) -> (r: bool)
        ensures
            r == self@.contains(cell_math(*cell)),
    {
        let r = vec_contains(&self.alive, *cell);
        proof {
            lemma_cset_contains(self.alive@, *cell);
        }
        r
    }

    /// Make this cell alive.
    pub fn set_alive(&mut self, cell: Cell)
        ensures
            final(self)@ == old(self)@.insert(cell_math(cell)),
            final(self).spec_generation() == old(self).spec_generation(),
    {
        proof {
            use_type_invariant(&*self);
        }
        let mut alive: Vec<Cell> = Vec::new();
        std::mem::swap(&mut alive, &mut self.alive);
        push_unique(&mut alive, cell);
        self.alive = alive;
    }

    /// Make this cell dead.
    pub fn set_dead(&mut self, cell: &Cell)
        ensures
            final(self)@ == old(self)@.remove(cell_math(*cell)),
            final(self).spec_generation() == old(self).spec_generation(),
    {
        proof {
            use_type_invariant(&*self);
        }
        let c = *cell;
        match index_of(&self.alive, c) {
            Some(i) => {
                let mut alive: Vec<Cell> = Vec::new();
                std::mem::swap(&mut alive, &mut self.alive);
                proof {
                    lemma_remove_keeps(alive@, i as int);
                }
                alive.remove(i);
                self.alive = alive;
                proof {
                    assert(self@ == old(self)@.remove(cell_math(c)));
                }
            },
            None => {
                proof {
                    lemma_cset_contains(self.alive@, c);
                    assert(self@ =~= self@.remove(cell_math(c)));
                }
            },
        }
    }

    /// Read-only view of the live cells; holds each live cell exactly once.
    pub fn cells(&self) -> (r: &Vec<Cell>)
        ensures
            cset(r@) == self@,
            r@.no_duplicates(),
    {
        proof {
            use_type_invariant(&*self);
        }
        &self.alive
    }

    /// Whether two grids hold the same live set, whatever the order their
    /// cells are stored in.
    pub fn same_cells(&self, other: &Grid) -> (r: bool)
        ensures
            r == (self@ == other@),
    {
        proof {
            use_type_invariant(&*self);
            use_type_invariant(&*other);
        }
        let fwd = subset_cells(&self.alive, &other.alive);
        let bwd = subset_cells(&other.alive, &self.alive);
        proof {
            if fwd && bwd {
                assert forall|p: (int, int)| self@.contains(p) implies other@.contains(p) by {
                    lemma_cset_elem(self.alive@, p);
                    let c = choose|c: Cell| self.alive@.contains(c) && cell_math(c) == p;
                    lemma_cset_contains(other.alive@, c);
                }
                assert forall|p: (int, int)| other@.contains(p) implies self@.contains(p) by {
                    lemma_cset_elem(other.alive@, p);
                    let c = choose|c: Cell| other.alive@.contains(c) && cell_math(c) == p;
                    lemma_cset_contains(self.alive@, c);
                }
                assert(self@ =~= other@);
            }
            if !fwd {
                let c = choose|c: Cell| self.alive@.contains(c) && !other.alive@.contains(c);
                lemma_cset_contains(self.alive@, c);
                lemma_cset_contains(other.alive@, c);
                assert(self@.contains(cell_math(c)) && !other@.contains(cell_math(c)));
            }
            if !bwd {
                let c = choose|c: Cell| other.alive@.contains(c) && !self.alive@.contains(c);
                lemma_cset_contains(self.alive@, c);
                lemma_cset_contains(other.alive@, c);
                assert(other@.contains(cell_math(c)) && !self@.contains(cell_math(c)));
            }
        }
        fwd && bwd
    }
}

/// Whether every cell of `a` also stands in `b`.
fn subset_cells(a: &Vec<Cell>, b: &Vec<Cell>) -> (r: bool)
    ensures
        r == forall|c: Cell| a@.contains(c) ==> b@.contains(c),
{
    let n = a.len();
    let mut i: usize = 0;
    while i < n
        invariant
            n == a@.len(),
            i <= n,
            forall|k: int| 0 <= k < i ==> b@.contains(a@[k]),
        decreases n - i,
    {
        let c = a[i];
        if !vec_contains(b, c) {
            proof {
                assert(a@.contains(a@[i as int]));
            }
            return false;
        }
        i += 1;
    }
    proof {
        assert forall|c: Cell| a@.contains(c) implies b@.contains(c) by {
            let k = choose|k: int| 0 <= k < a@.len() && a@[k] == c;
            assert(b@.contains(a@[k]));
        }
    }
    true
}

/// Appending one cell to a sequence adds exactly its position to the held
/// set.
proof fn lemma_cset_push(s: Seq<Cell>, c: Cell)
    ensures
        cset(s.push(c)) == cset(s).insert(cell_math(c)),
{
    let s1 = s.push(c);
    assert forall|p: (int, int)| #[trigger] cset(s1).contains(p) implies cset(s).insert(
        cell_math(c),
    ).contains(p) by {
        lemma_cset_elem(s1, p);
        let e = choose|e: Cell| s1.contains(e) && cell_math(e) == p;
        let i = choose|i: int| 0 <= i < s1.len() && s1[i] == e;
        if i < s.len() {
            assert(s.contains(e));
            lemma_cset_contains(s, e);
        } else {
            assert(e == c);
        }
    }
    assert forall|p: (int, int)| cset(s).insert(cell_math(c)).contains(p) implies #[trigger] cset(
        s1,
    ).contains(p) by {
        if p == cell_math(c) {
            assert(s1[s.len() as int] == c);
            assert(s1.contains(c));
            lemma_cset_contains(s1, c);
        } else {
            lemma_cset_elem(s, p);
            let e = choose|e: Cell| s.contains(e) && cell_math(e) == p;
            let i = choose|i: int| 0 <= i < s.len() && s[i] == e;
            assert(s1[i] == e);
            assert(s1.contains(e));
            lemma_cset_contains(s1, e);
        }
    }
    assert(cset(s1) =~= cset(s).insert(cell_math(c)));
}

/// Removing the cell at index `i` removes exactly its position from the held
/// set, and keeps the sequence duplicate-free.
proof fn lemma_remove_keeps(s: Seq<Cell>, i: int)
    requires
        s.no_duplicates(),
        0 <= i < s.len(),
    ensures
        s.remove(i).no_duplicates(),
        cset(s.remove(i)) == cset(s).remove(cell_math(s[i])),
{
    let r = s.remove(i);
    assert forall|a: int, b: int| 0 <= a < r.len() && 0 <= b < r.len() && a != b implies r[a]
        != r[b] by {
        let a0 = if a < i {
            a
        } else {
            a + 1
        };
        let b0 = if b < i {
            b
        } else {
            b + 1
        };
        assert(r[a] == s[a0] && r[b] == s[b0]);
        assert(s[a0] != s[b0]);
    }
    assert forall|p: (int, int)| #[trigger] cset(r).contains(p) implies cset(s).remove(
        cell_math(s[i]),
    ).contains(p) by {
        lemma_cset_elem(r, p);
        let c = choose|c: Cell| r.contains(c) && cell_math(c) == p;
        let k = choose|k: int| 0 <= k < r.len() && r[k] == c;
        let k0 = if k < i {
            k
        } else {
            k + 1
        };
        assert(s[k0] == c);
        assert(s.contains(c));
        lemma_cset_contains(s, c);
        if p == cell_math(s[i]) {
            assert(s[k0].0 == s[i].0 && s[k0].1 == s[i].1);
            assert(s[k0] == s[i]);
            assert(k0 != i);
            assert(false);
        }
    }
    assert forall|p: (int, int)| cset(s).remove(cell_math(s[i])).contains(p) implies #[trigger] cset(
        r,
    ).contains(p) by {
        lemma_cset_elem(s, p);
        let c = choose|c: Cell| s.contains(c) && cell_math(c) == p;
        let k = choose|k: int| 0 <= k < s.len() && s[k] == c;
        assert(k != i) by {
            if k == i {
                assert(p == cell_math(s[i]));
            }
        }
        let k1 = if k < i {
            k
        } else {
            k - 1
        };
        assert(r[k1] == c);
        assert(r.contains(c));
        lemma_cset_contains(r, c);
    }
    assert(cset(r) =~= cset(s).remove(cell_math(s[i])));
}


/// Any position with a live neighbor is near some live cell.
proof fn lemma_count_witness(s: Set<(int, int)>, p: (int, int))
    requires
        neighbor_count(s, p) > 0,
    ensures
        exists|q: (int, int)| s.contains(q) && near(q, p),
{
    if s.contains((p.0 - 1, p.1 - 1)) {
        assert(near((p.0 - 1, p.1 - 1), p));
    } else if s.contains((p.0 - 1, p.1)) {
        assert(near((p.0 - 1, p.1), p));
    } else if s.contains((p.0 - 1, p.1 + 1)) {
        assert(near((p.0 - 1, p.1 + 1), p));
    } else if s.contains((p.0, p.1 - 1)) {
        assert(near((p.0, p.1 - 1), p));
    } else if s.contains((p.0, p.1 + 1)) {
        assert(near((p.0, p.1 + 1), p));
    } else if s.contains((p.0 + 1, p.1 - 1)) {
        assert(near((p.0 + 1, p.1 - 1), p));
    } else if s.contains((p.0 + 1, p.1)) {
        assert(near((p.0 + 1, p.1), p));
    } else if s.contains((p.0 + 1, p.1 + 1)) {
        assert(near((p.0 + 1, p.1 + 1), p));
    } else {
        assert(neighbor_count(s, p) == 0);
    }
}

/// Every cell live after one generation lies within one cell of a cell that
/// was live before: the live region grows by at most one cell per step.
pub proof fn lemma_step_in_block(s: Set<(int, int)>)
    ensures
        step_spec(s).subset_of(block_of(s)),
{
    assert forall|p: (int, int)| step_spec(s).contains(p) implies block_of(s).contains(p) by {
        if s.contains(p) {
            assert(near(p, p));
        } else {
            lemma_count_witness(s, p);
        }
    }
}

/// Adding one live cell to a set extends its neighborhood block by the 3x3
/// block of the new cell.
proof fn lemma_block_insert(s: Set<(int, int)>, q: (int, int), t: Set<(int, int)>)
    requires
        t == block_of(s).insert((q.0 - 1, q.1 - 1)).insert((q.0 - 1, q.1)).insert(
            (q.0 - 1, q.1 + 1),
        ).insert((q.0, q.1 - 1)).insert((q.0, q.1)).insert((q.0, q.1 + 1)).insert(
            (q.0 + 1, q.1 - 1),
        ).insert((q.0 + 1, q.1)).insert((q.0 + 1, q.1 + 1)),
    ensures
        t == block_of(s.insert(q)),
{
    assert forall|p: (int, int)| #[trigger] t.contains(p) implies block_of(s.insert(q)).contains(
        p,
    ) by {
        if block_of(s).contains(p) {
            let w = choose|w: (int, int)| s.contains(w) && near(w, p);
            assert(s.insert(q).contains(w) && near(w, p));
        } else {
            assert(near(q, p));
            assert(s.insert(q).contains(q));
        }
    }
    assert forall|p: (int, int)| block_of(s.insert(q)).contains(p) implies #[trigger] t.contains(
        p,
    ) by {
        let w = choose|w: (int, int)| s.insert(q).contains(w) && near(w, p);
        if s.contains(w) {
            assert(block_of(s).contains(p));
        } else {
            assert(w == q);
            let a = p.0 - q.0;
            let b = p.1 - q.1;
            assert(p == (q.0 + a, q.1 + b));
            assert(-1 <= a <= 1 && -1 <= b <= 1);
        }
    }
    assert(t =~= block_of(s.insert(q)));
}

impl Grid {
    /// Whether the cell displaced from `cell` by `(dr, dc)` is alive; the
    /// displaced position may fall outside the 64-bit range, where nothing
    /// lives.
    fn live_nb(&self, cell: Cell, dr: i64, dc: i64) -> (b: bool)
        requires
            -1 <= dr <= 1 && -1 <= dc <= 1,
            inward(self@),
        ensures
            b == self@.contains((cell.0 + dr, cell.1 + dc)),
    {
        proof {
            use_type_invariant(&*self);
        }
        match (cell.0.checked_add(dr), cell.1.checked_add(dc)) {
            (Some(r), Some(c)) => {
                let b = vec_contains(&self.alive, (r, c));
                proof {
                    lemma_cset_contains(self.alive@, (r, c));
                }
                b
            },
            _ => {
                proof {
                    if self@.contains((cell.0 + dr, cell.1 + dc)) {
                        assert(i64::MIN < cell.0 + dr < i64::MAX);
                        assert(i64::MIN < cell.1 + dc < i64::MAX);
                    }
                }
                false
            },
        }
    }

    /// The number of live cells among the eight neighbors of `cell`.
    fn live_neighbors(&self, cell: Cell) -> (n: u8)
        requires
            inward(self@),
        ensures
            n as int == neighbor_count(self@, cell_math(cell)),
    {
        let mut n: u8 = 0;
        if self.live_nb(cell, -1, -1) {
            n += 1;
        }
        if self.live_nb(cell, -1, 0) {
            n += 1;
        }
        if self.live_nb(cell, -1, 1) {
            n += 1;
        }
        if self.live_nb(cell, 0, -1) {
            n += 1;
        }
        if self.live_nb(cell, 0, 1) {
            n += 1;
        }
        if self.live_nb(cell, 1, -1) {
            n += 1;
        }
        if self.live_nb(cell, 1, 0) {
            n += 1;
        }
        if self.live_nb(cell, 1, 1) {
            n += 1;
        }
        n
    }

    /// Advance the grid by one generation of the B3/S23 rule.
    ///
    /// The kernel walks each live cell and gathers the cells of its 3x3
    /// block as candidates; only candidates can satisfy the rule, so the
    /// cost is proportional to the number of live cells, independent of
    /// world extent.
    pub fn step(&mut self)
        requires
            inward(old(self)@),
            old(self).spec_generation() < u64::MAX,
        ensures
            final(self)@ == step_spec(old(self)@),
            final(self).spec_generation() == old(self).spec_generation() + 1,
    {
        proof {
            use_type_invariant(&*self);
        }
        let ghost s0 = self@;
        // Gather candidates: every cell of the 3x3 block of each live cell.
        let mut cands: Vec<Cell> = Vec::new();
        let n = self.alive.len();
        let mut i: usize = 0;
        while i < n
            invariant
                self.alive == old(self).alive,
                self.generation == old(self).generation,
                n == self.alive@.len(),
                self.alive@.no_duplicates(),
                s0 == cset(self.alive@),
                inward(s0),
                i <= n,
                cands@.no_duplicates(),
                cset(cands@) == block_of(cset(self.alive@.take(i as int))),
            decreases n - i,
        {
            let q = self.alive[i];
            proof {
                assert(self.alive@.contains(q));
                lemma_cset_contains(self.alive@, q);
                assert(s0.contains(cell_math(q)));
            }
            let ghost before = cset(cands@);
            push_unique(&mut cands, (q.0 - 1, q.1 - 1));
            push_unique(&mut cands, (q.0 - 1, q.1));
            push_unique(&mut cands, (q.0 - 1, q.1 + 1));
            push_unique(&mut cands, (q.0, q.1 - 1));
            push_unique(&mut cands, (q.0, q.1));
            push_unique(&mut cands, (q.0, q.1 + 1));
            push_unique(&mut cands, (q.0 + 1, q.1 - 1));
            push_unique(&mut cands, (q.0 + 1, q.1));
            push_unique(&mut cands, (q.0 + 1, q.1 + 1));
            proof {
                let qm = cell_math(q);
                lemma_block_insert(cset(self.alive@.take(i as int)), qm, cset(cands@));
                assert(self.alive@.take(i + 1) == self.alive@.take(i as int).push(q));
                lemma_cset_push(self.alive@.take(i as int), q);
                assert(cset(self.alive@.take(i + 1)) == cset(self.alive@.take(i as int)).insert(
                    qm,
                ));
            }
            i += 1;
        }
        proof {
            assert(self.alive@.take(n as int) == self.alive@);
        }
        // Keep the candidates that satisfy the rule.
        let mut next: Vec<Cell> = Vec::new();
        let m = cands.len();
        let mut j: usize = 0;
        while j < m
            invariant
                self.alive == old(self).alive,
                self.generation == old(self).generation,
                self.alive@.no_duplicates(),
                s0 == cset(self.alive@),
                inward(s0),
                m == cands@.len(),
                j <= m,
                cands@.no_duplicates(),
                cset(cands@) == block_of(s0),
                next@.no_duplicates(),
                cset(next@) == cset(cands@.take(j as int)).intersect(step_spec(s0)),
            decreases m - j,
        {
            let cand = cands[j];
            let nb = self.live_neighbors(cand);
            let was = vec_contains(&self.alive, cand);
            proof {
                lemma_cset_contains(self.alive@, cand);
                assert(cands@.take(j + 1) == cands@.take(j as int).push(cand));
                lemma_cset_push(cands@.take(j as int), cand);
            }
            if nb == 3 || (nb == 2 && was) {
                proof {
                    assert(next_alive(s0, cell_math(cand)));
                    assert(!next@.contains(cand)) by {
                        if next@.contains(cand) {
                            lemma_cset_contains(next@, cand);
                            lemma_cset_elem(cands@.take(j as int), cell_math(cand));
                            let c = choose|c: Cell|
                                cands@.take(j as int).contains(c) && cell_math(c) == cell_math(
                                    cand,
                                );
                            assert(c.0 == cand.0 && c.1 == cand.1);
                            let k = choose|k: int|
                                0 <= k < cands@.take(j as int).len() && cands@.take(j as int)[k]
                                    == c;
                            assert(cands@[k] == cands@[j as int]);
                        }
                    };
                    lemma_cset_push(next@, cand);
                }
                next.push(cand);
                proof {
                    // freshly pushed sequence stays duplicate-free
                    assert forall|a: int, b: int|
                        0 <= a < next@.len() && 0 <= b < next@.len() && a != b implies next@[a]
                        != next@[b] by {
                        let prev = next@.drop_last();
                        assert(prev == next@.take(next@.len() - 1));
                        if a < next@.len() - 1 && b < next@.len() - 1 {
                        } else if b == next@.len() - 1 {
                            assert(prev.contains(next@[a]) == false || true);
                            if next@[a] == next@[b] {
                                assert(prev[a] == next@[a]);
                                assert(prev.contains(cand));
                            }
                        } else {
                            if next@[a] == next@[b] {
                                assert(prev[b] == next@[b]);
                                assert(prev.contains(cand));
                            }
                        }
                    }
                    assert(cset(next@) =~= cset(cands@.take(j + 1)).intersect(step_spec(s0)));
                }
            } else {
                proof {
                    assert(!next_alive(s0, cell_math(cand)));
                    assert(cset(next@) =~= cset(cands@.take(j + 1)).intersect(step_spec(s0)));
                }
            }
            j += 1;
        }
        proof {
            assert(cands@.take(m as int) == cands@);
            lemma_step_in_block(s0);
            assert(cset(next@) =~= step_spec(s0));
        }
        self.alive = next;
        self.generation = self.generation + 1;
    }
}


/// Translating the plane leaves neighbor counts unchanged: the neighbors of
/// a shifted position are the shifted neighbors.
proof fn lemma_count_translate(s: Set<(int, int)>, dr: int, dc: int, p: (int, int))
    ensures
        neighbor_count(translate(s, dr, dc), p) == neighbor_count(s, (p.0 - dr, p.1 - dc)),
{
}

/// One generation commutes with translation: stepping a shifted grid gives
/// the shifted step, so a pattern evolves the same way wherever it lies on
/// the infinite plane.
pub proof fn lemma_step_translation_equivariant(s: Set<(int, int)>, dr: int, dc: int)
    ensures
        step_spec(translate(s, dr, dc)) == translate(step_spec(s), dr, dc),
{
    assert forall|p: (int, int)|
        step_spec(translate(s, dr, dc)).contains(p) == translate(step_spec(s), dr, dc).contains(
            p,
        ) by {
        lemma_count_translate(s, dr, dc, p);
    }
    assert(step_spec(translate(s, dr, dc)) =~= translate(step_spec(s), dr, dc));
}

/// Any number of generations commutes with translation.
pub proof fn lemma_step_iter_translation_equivariant(s: Set<(int, int)>, dr: int, dc: int, n: nat)
    ensures
        step_iter(translate(s, dr, dc), n) == translate(step_iter(s, n), dr, dc),
    decreases n,
{
    if n > 0 {
        lemma_step_iter_translation_equivariant(s, dr, dc, (n - 1) as nat);
        lemma_step_translation_equivariant(step_iter(s, (n - 1) as nat), dr, dc);
    }
}

/// Iterating from the stepped set is one more iteration from the set itself.
proof fn lemma_step_iter_shift(s: Set<(int, int)>, k: nat)
    ensures
        step_iter(step_spec(s), k) == step_iter(s, k + 1),
    decreases k,
{
    if k == 0 {
        assert(step_iter(step_spec(s), 0) == step_spec(s));
        assert(step_iter(s, 1) == step_spec(step_iter(s, 0)));
    } else {
        lemma_step_iter_shift(s, (k - 1) as nat);
        assert(step_iter(step_spec(s), k) == step_spec(step_iter(step_spec(s), (k - 1) as nat)));
        assert(step_iter(s, k + 1) == step_spec(step_iter(s, k)));
    }
}

/// An empty grid stays empty for any number of generations: with no live
/// cells every neighbor count is zero, so no cell is ever born.
pub proof fn lemma_empty_fixed_point(n: nat)
    ensures
        step_iter(Set::<(int, int)>::empty(), n) == Set::<(int, int)>::empty(),
    decreases n,
{
    if n > 0 {
        lemma_empty_fixed_point((n - 1) as nat);
        assert forall|p: (int, int)| !step_spec(Set::<(int, int)>::empty()).contains(p) by {
            assert(neighbor_count(Set::<(int, int)>::empty(), p) == 0);
        }
        assert(step_spec(Set::<(int, int)>::empty()) =~= Set::<(int, int)>::empty());
    }
}

/// Every live position keeps a margin of `m` cells to the edge of the 64-bit
/// coordinate range.
pub open spec fn padded(s: Set<(int, int)>, m: int) -> bool {
    forall|p: (int, int)|
        s.contains(p) ==> i64::MIN + m < p.0 < i64::MAX - m && i64::MIN + m < p.1 < i64::MAX - m
}

/// One generation costs at most one cell of margin.
pub proof fn lemma_padded_step(s: Set<(int, int)>, m: int)
    requires
        padded(s, m),
        m >= 1,
    ensures
        padded(step_spec(s), m - 1),
{
    lemma_step_in_block(s);
    assert forall|p: (int, int)| step_spec(s).contains(p) implies i64::MIN + (m - 1) < p.0
        < i64::MAX - (m - 1) && i64::MIN + (m - 1) < p.1 < i64::MAX - (m - 1) by {
        assert(block_of(s).contains(p));
        let q = choose|q: (int, int)| s.contains(q) && near(q, p);
        assert(i64::MIN + m < q.0 < i64::MAX - m && i64::MIN + m < q.1 < i64::MAX - m);
    }
}

/// A grid whose live cells keep `n` cells of margin from the edge of the
/// coordinate range can take `n` generations without any coordinate leaving
/// the range; this discharges the precondition of `step_n`.
pub proof fn lemma_padded_iter(s: Set<(int, int)>, n: nat)
    requires
        padded(s, n as int),
    ensures
        forall|k: nat| k <= n ==> inward(#[trigger] step_iter(s, k)),
    decreases n,
{
    assert(inward(step_iter(s, 0)));
    if n > 0 {
        lemma_padded_step(s, n as int);
        lemma_padded_iter(step_spec(s), (n - 1) as nat);
        assert forall|k: nat| k <= n implies inward(#[trigger] step_iter(s, k)) by {
            if k > 0 {
                lemma_step_iter_shift(s, (k - 1) as nat);
                assert(inward(step_iter(step_spec(s), (k - 1) as nat)));
            }
        }
    }
}

impl Grid {
    /// Advance by `n` generations. The counter grows by exactly `n`, and the
    /// live set becomes the `n`-fold image of the rule, provided every
    /// intermediate generation stays inside the coordinate range (see
    /// `lemma_padded_iter` for a simple sufficient condition).
    pub fn step_n(&mut self, n: u64)
        requires
            forall|k: nat| k < n ==> inward(#[trigger] step_iter(old(self)@, k)),
            old(self).spec_generation() + n <= u64::MAX,
        ensures
            final(self)@ == step_iter(old(self)@, n as nat),
            final(self).spec_generation() == old(self).spec_generation() + n,
    {
        let ghost s0 = self@;
        let ghost g0 = self.spec_generation();
        let mut i: u64 = 0;
        while i < n
            invariant
                i <= n,
                self@ == step_iter(s0, i as nat),
                self.spec_generation() == g0 + i,
                g0 + n <= u64::MAX,
                forall|k: nat| k < n ==> inward(#[trigger] step_iter(s0, k)),
            decreases n - i,
        {
            proof {
                assert(inward(step_iter(s0, i as nat)));
            }
            self.step();
            proof {
                assert(step_iter(s0, (i + 1) as nat) == step_spec(step_iter(s0, i as nat)));
            }
            i += 1;
        }
    }

    /// Compute the bounding box of all live cells:
    /// `(min_row, min_col, max_row, max_col)`, each bound attained by some
    /// live cell. Returns `None` iff the grid is empty.
    pub fn bounds(&self) -> (r: Option<(i64, i64, i64, i64)>)
        ensures
            match r {
                None => self@.is_empty(),
                Some(b) => {
                    &&& forall|p: (int, int)|
                        self@.contains(p) ==> b.0 <= p.0 <= b.2 && b.1 <= p.1 <= b.3
                    &&& exists|p: (int, int)| self@.contains(p) && p.0 == b.0
                    &&& exists|p: (int, int)| self@.contains(p) && p.1 == b.1
                    &&& exists|p: (int, int)| self@.contains(p) && p.0 == b.2
                    &&& exists|p: (int, int)| self@.contains(p) && p.1 == b.3
                },
            },
    {
        proof {
            use_type_invariant(&*self);
        }
        let n = self.alive.len();
        if n == 0 {
            proof {
                assert forall|p: (int, int)| !self@.contains(p) by {
                    if self@.contains(p) {
                        lemma_cset_elem(self.alive@, p);
                    }
                }
                assert(self@ =~= Set::<(int, int)>::empty());
            }
            return None;
        }
        let first = self.alive[0];
        let mut r0 = first.0;
        let mut c0 = first.1;
        let mut r1 = first.0;
        let mut c1 = first.1;
        let mut i: usize = 1;
        while i < n
            invariant
                n == self.alive@.len(),
                1 <= i <= n,
                forall|k: int|
                    0 <= k < i ==> r0 <= (#[trigger] self.alive@[k]).0 <= r1 && c0
                        <= self.alive@[k].1 <= c1,
                exists|k: int| 0 <= k < i && (#[trigger] self.alive@[k]).0 == r0,
                exists|k: int| 0 <= k < i && (#[trigger] self.alive@[k]).1 == c0,
                exists|k: int| 0 <= k < i && (#[trigger] self.alive@[k]).0 == r1,
                exists|k: int| 0 <= k < i && (#[trigger] self.alive@[k]).1 == c1,
            decreases n - i,
        {
            let e = self.alive[i];
            if e.0 < r0 {
                r0 = e.0;
            }
            if e.1 < c0 {
                c0 = e.1;
            }
            if e.0 > r1 {
                r1 = e.0;
            }
            if e.1 > c1 {
                c1 = e.1;
            }
            i += 1;
        }
        proof {
            assert forall|p: (int, int)| self@.contains(p) implies r0 <= p.0 <= r1 && c0 <= p.1
                <= c1 by {
                lemma_cset_elem(self.alive@, p);
                let c = choose|c: Cell| self.alive@.contains(c) && cell_math(c) == p;
                let k = choose|k: int| 0 <= k < self.alive@.len() && self.alive@[k] == c;
                assert(r0 <= self.alive@[k].0 <= r1 && c0 <= self.alive@[k].1 <= c1);
            }
            let k0 = choose|k: int| 0 <= k < n && (#[trigger] self.alive@[k]).0 == r0;
            assert(self.alive@.contains(self.alive@[k0]));
            lemma_cset_contains(self.alive@, self.alive@[k0]);
            let k1 = choose|k: int| 0 <= k < n && (#[trigger] self.alive@[k]).1 == c0;
            assert(self.alive@.contains(self.alive@[k1]));
            lemma_cset_contains(self.alive@, self.alive@[k1]);
            let k2 = choose|k: int| 0 <= k < n && (#[trigger] self.alive@[k]).0 == r1;
            assert(self.alive@.contains(self.alive@[k2]));
            lemma_cset_contains(self.alive@, self.alive@[k2]);
            let k3 = choose|k: int| 0 <= k < n && (#[trigger] self.alive@[k]).1 == c1;
            assert(self.alive@.contains(self.alive@[k3]));
            lemma_cset_contains(self.alive@, self.alive@[k3]);
            assert(self@.contains(cell_math(self.alive@[k0])) && cell_math(self.alive@[k0]).0
                == r0);
            assert(self@.contains(cell_math(self.alive@[k1])) && cell_math(self.alive@[k1]).1
                == c0);
            assert(self@.contains(cell_math(self.alive@[k2])) && cell_math(self.alive@[k2]).0
                == r1);
            assert(self@.contains(cell_math(self.alive@[k3])) && cell_math(self.alive@[k3]).1
                == c1);
        }
        Some((r0, c0, r1, c1))
    }
}

impl Grid {
    /// Parse a grid from a multi-line string where `#` or `O` is alive, the
    /// pattern anchored at `(offset_row, offset_col)`. Every live cell of the
    /// pattern must land inside the 64-bit coordinate range.
    pub fn from_pattern(pattern: &str, offset_row: i64, offset_col: i64) -> (r: Self)
        requires
            pattern@.len() <= i64::MAX,
            forall|q: (int, int)| #[trigger]
                pattern_cells(pattern@).contains(q) ==> i64::MIN <= offset_row + q.0 <= i64::MAX
                    && i64::MIN <= offset_col + q.1 <= i64::MAX,
        ensures
            r@ == translate(pattern_cells(pattern@), offset_row as int, offset_col as int),
            r.spec_generation() == 0,
    {
        let cells = crate::codec::parse_pattern(pattern);
        let mut alive: Vec<Cell> = Vec::new();
        let n = cells.len();
        let mut i: usize = 0;
        while i < n
            invariant
                n == cells@.len(),
                i <= n,
                pattern@.len() <= i64::MAX,
                forall|q: (int, int)| #[trigger]
                    pattern_cells(pattern@).contains(q) ==> i64::MIN <= offset_row + q.0
                        <= i64::MAX && i64::MIN <= offset_col + q.1 <= i64::MAX,
                pset(cells@) == pattern_cells(pattern@),
                forall|k: int|
                    0 <= k < cells@.len() ==> (#[trigger] cells@[k]).0 < pattern@.len()
                        && cells@[k].1 < pattern@.len(),
                alive@.no_duplicates(),
                cset(alive@) == translate(
                    pset(cells@.take(i as int)),
                    offset_row as int,
                    offset_col as int,
                ),
            decreases n - i,
        {
            let (pr, pc) = cells[i];
            proof {
                assert(cells@.contains(cells@[i as int]));
                lemma_pset_contains(cells@, (pr, pc));
                assert(pattern_cells(pattern@).contains((pr as int, pc as int)));
            }
            let cell = (offset_row + (pr as i64), offset_col + (pc as i64));
            push_unique(&mut alive, cell);
            proof {
                lemma_pset_push_take(cells@, i as int);
                let dr = offset_row as int;
                let dc = offset_col as int;
                let t0 = translate(pset(cells@.take(i as int)), dr, dc);
                let q = (pr as int, pc as int);
                assert forall|p: (int, int)|
                    translate(pset(cells@.take(i as int)).insert(q), dr, dc).contains(
                        p,
                    ) <==> #[trigger] t0.insert((q.0 + dr, q.1 + dc)).contains(p) by {
                    if (p.0 - dr, p.1 - dc) == q {
                        assert(p == (q.0 + dr, q.1 + dc));
                    }
                }
                assert(cset(alive@) =~= translate(pset(cells@.take(i + 1)), dr, dc));
            }
            i += 1;
        }
        proof {
            assert(cells@.take(n as int) == cells@);
        }
        Grid { alive, generation: 0 }
    }
}

impl Default for Grid {
    /// An empty grid at generation zero.
    fn default() -> (r: Self)
        ensures
            r@ == Set::<(int, int)>::empty(),
            r.spec_generation() == 0,
    {
        Grid::new()
    }
}

impl Clone for Grid {
    /// A clone holds the same live set and generation.
    fn clone(&self) -> (r: Self)
        ensures
            r@ == self@,
            r.spec_generation() == self.spec_generation(),
    {
        proof {
            use_type_invariant(&*self);
        }
        let mut alive: Vec<Cell> = Vec::new();
        let n = self.alive.len();
        let mut i: usize = 0;
        while i < n
            invariant
                n == self.alive@.len(),
                i <= n,
                alive@ == self.alive@.take(i as int),
            decreases n - i,
        {
            let c = self.alive[i];
            alive.push(c);
            proof {
                assert(alive@ =~= self.alive@.take(i + 1));
            }
            i += 1;
        }
        proof {
            assert(alive@ == self.alive@);
        }
        Grid { alive, generation: self.generation }
    }
}

/// The live set of the glider pattern, anchored at the origin.
pub open spec fn glider_cells() -> Set<(int, int)> {
    set![(0, 1), (1, 2), (2, 0), (2, 1), (2, 2)]
}

/// One generation of the glider, phase by phase.
#[verifier::rlimit(100)]
pub(crate) proof fn lemma_glider_phase_1()
    ensures
        step_spec(glider_cells()) == set![(1int, 0int), (1int, 2int), (2int, 1int), (2int, 2int), (3int, 1int)],
{
    assert(step_spec(glider_cells()) =~= set![(1int, 0int), (1int, 2int), (2int, 1int), (2int, 2int), (3int, 1int)]);
}

/// The second generation of the glider.
#[verifier::rlimit(100)]
pub(crate) proof fn lemma_glider_phase_2()
    ensures
        step_spec(set![(1int, 0int), (1int, 2int), (2int, 1int), (2int, 2int), (3int, 1int)])
            == set![(1int, 2int), (2int, 0int), (2int, 2int), (3int, 1int), (3int, 2int)],
{
    assert(step_spec(set![(1int, 0int), (1int, 2int), (2int, 1int), (2int, 2int), (3int, 1int)])
        =~= set![(1int, 2int), (2int, 0int), (2int, 2int), (3int, 1int), (3int, 2int)]);
}

/// The third generation of the glider.
#[verifier::rlimit(100)]
pub(crate) proof fn lemma_glider_phase_3()
    ensures
        step_spec(set![(1int, 2int), (2int, 0int), (2int, 2int), (3int, 1int), (3int, 2int)])
            == set![(1int, 1int), (2int, 2int), (2int, 3int), (3int, 1int), (3int, 2int)],
{
    assert(step_spec(set![(1int, 2int), (2int, 0int), (2int, 2int), (3int, 1int), (3int, 2int)])
        =~= set![(1int, 1int), (2int, 2int), (2int, 3int), (3int, 1int), (3int, 2int)]);
}

/// The fourth generation of the glider.
#[verifier::rlimit(100)]
pub(crate) proof fn lemma_glider_phase_4()
    ensures
        step_spec(set![(1int, 1int), (2int, 2int), (2int, 3int), (3int, 1int), (3int, 2int)])
            == set![(1int, 2int), (2int, 3int), (3int, 1int), (3int, 2int), (3int, 3int)],
{
    assert(step_spec(set![(1int, 1int), (2int, 2int), (2int, 3int), (3int, 1int), (3int, 2int)])
        =~= set![(1int, 2int), (2int, 3int), (3int, 1int), (3int, 2int), (3int, 3int)]);
}

/// A glider crosses one diagonal cell every four generations: four steps of
/// the rule translate its live set by one row and one column. Together with
/// `lemma_step_iter_translation_equivariant` the same holds at every anchor
/// of the infinite plane.
pub proof fn lemma_glider_cycle()
    ensures
        step_iter(glider_cells(), 4) == translate(glider_cells(), 1, 1),
{
    let g0 = glider_cells();
    lemma_glider_phase_1();
    lemma_glider_phase_2();
    lemma_glider_phase_3();
    lemma_glider_phase_4();
    let g4: Set<(int, int)> = set![(1int, 2int), (2int, 3int), (3int, 1int), (3int, 2int), (3int, 3int)];
    assert(step_iter(g0, 4) == g4) by {
        assert(step_iter(g0, 1) == step_spec(step_iter(g0, 0)));
        assert(step_iter(g0, 2) == step_spec(step_iter(g0, 1)));
        assert(step_iter(g0, 3) == step_spec(step_iter(g0, 2)));
        assert(step_iter(g0, 4) == step_spec(step_iter(g0, 3)));
    }
    assert(g4 =~= translate(g0, 1, 1));
}

} // verus!
