//! The wave function: a toroidal grid of candidate sets, the entropy
//! index over it, and the collapse / propagation engine.

use crate::candidate::{
    lemma_popcount_le_len, lemma_popcount_subset, lemma_popcount_subset_eq, lemma_popcount_update,
    lemma_popcount_zero, lemma_rank_index_props, popcount, rank_index, SuperState,
};
use crate::entropy::EntropyIndex;
use crate::tiles::{Glyph, State};
use vstd::prelude::*;

verus! {

pub const UP: usize = 0;

pub const DOWN: usize = 1;

pub const RIGHT: usize = 2;

pub const LEFT: usize = 3;

/// A grid coordinate: row `y`, column `x`.
#[derive(Clone, Copy, PartialEq, Eq, Structural, Debug)]
pub struct Point {
    pub y: usize,
    pub x: usize,
}

impl Point {
    pub fn new(y: usize, x: usize) -> (p: Point)
        ensures
            p.y == y,
            p.x == x,
    {
        Point { y, x }
    }
}

/// One "cell resolved" notification: the cell at `p` reached a single
/// candidate, the tile `tile`.
#[derive(Clone, Copy, PartialEq, Eq, Structural, Debug)]
pub struct ResolvedEvent {
    pub p: Point,
    pub tile: usize,
}

/// A cell ran out of candidates; the generation attempt has failed and
/// the grid must be discarded or reinitialized.
#[derive(Clone, Copy, PartialEq, Eq, Structural, Debug)]
pub struct ContradictionError {
    pub p: Point,
}

/// What an observer sees of one cell.
#[derive(Clone, Copy, PartialEq, Eq, Structural, Debug)]
pub enum CellState {
    Resolved(usize),
    Superposed(usize),
    Contradiction,
}

/// What one driver step did.
#[derive(Clone, Copy, PartialEq, Eq, Structural, Debug)]
pub enum StepOutcome {
    Collapsed,
    Done,
    Contradiction,
}

/// What enforcing one directed edge did to the neighbor's candidates.
#[derive(Clone, Copy, PartialEq, Eq, Structural, Debug)]
pub enum EdgeOutcome {
    /// Nothing shrank (or the edge crosses the broken seam).
    Unchanged,
    /// The neighbor shrank to the given positive cardinality.
    Reduced(Point, usize),
    /// The neighbor ran out of candidates.
    Emptied(Point),
}

/// Wrap-around decrement on `0 .. n`.
pub open spec fn prev_wrap(i: int, n: int) -> int {
    if i == 0 {
        n - 1
    } else {
        i - 1
    }
}

/// Wrap-around increment on `0 .. n`.
pub open spec fn next_wrap(i: int, n: int) -> int {
    if i + 1 == n {
        0
    } else {
        i + 1
    }
}

/// The step of the seeded pseudo-random choice (a Lehmer generator).
pub open spec fn lcg_next(r: u64) -> u64 {
    ((((r as int) % 0x7fff_ffff) * 48271) % 0x7fff_ffff) as u64
}

/// Total candidate count over all cells.
pub open spec fn sum_cards(g: Seq<SuperState>) -> nat
    decreases g.len(),
{
    if g.len() == 0 {
        0
    } else {
        sum_cards(g.drop_last()) + popcount(g.last()@)
    }
}

/// Replacing one cell changes the total by the difference of the counts.
pub proof fn lemma_sum_cards_update(g: Seq<SuperState>, i: int, v: SuperState)
    requires
        0 <= i < g.len(),
    ensures
        sum_cards(g.update(i, v)) + popcount(g[i]@) == sum_cards(g) + popcount(v@),
    decreases g.len(),
{
    let t = g.update(i, v);
    if i == g.len() - 1 {
        assert(t.drop_last() =~= g.drop_last());
    } else {
        assert(t.drop_last() =~= g.drop_last().update(i, v));
        lemma_sum_cards_update(g.drop_last(), i, v);
        assert(t.last() == g.last());
    }
}

/// The total candidate count is at most `k` per cell.
pub proof fn lemma_sum_cards_bound(g: Seq<SuperState>, k: nat)
    requires
        forall|c: int| 0 <= c < g.len() ==> popcount((#[trigger] g[c])@) <= k,
    ensures
        sum_cards(g) <= g.len() * k,
    decreases g.len(),
{
    if g.len() > 0 {
        lemma_sum_cards_bound(g.drop_last(), k);
        assert(g.len() * k == (g.len() - 1) * k + k) by (nonlinear_arith);
    }
}

/// A flat grid index is in bounds.
pub proof fn lemma_grid_index(h: int, w: int, y: int, x: int)
    requires
        0 <= y < h,
        0 <= x < w,
    ensures
        0 <= y * w + x < h * w,
        y * w <= y * w + x,
{
    assert(0 <= y * w + x < h * w) by (nonlinear_arith)
        requires
            0 <= y < h,
            0 <= x < w,
    ;
}

/// Flat grid indices determine the coordinates.
pub proof fn lemma_grid_index_inj(w: int, y1: int, x1: int, y2: int, x2: int)
    requires
        0 <= x1 < w,
        0 <= x2 < w,
        0 <= y1,
        0 <= y2,
        y1 * w + x1 == y2 * w + x2,
    ensures
        y1 == y2,
        x1 == x2,
{
    assert(y1 == y2 && x1 == x2) by (nonlinear_arith)
        requires
            0 <= x1 < w,
            0 <= x2 < w,
            0 <= y1,
            0 <= y2,
            y1 * w + x1 == y2 * w + x2,
    ;
}

/// Decomposing a flat grid index back into coordinates.
pub proof fn lemma_grid_index_decomp(h: int, w: int, c: int)
    requires
        0 < w,
        0 <= c < h * w,
    ensures
        0 <= c / w < h,
        0 <= c % w < w,
        (c / w) * w + (c % w) == c,
{
    vstd::arithmetic::div_mod::lemma_fundamental_div_mod(c, w);
    assert(0 <= c / w < h && 0 <= c % w < w && (c / w) * w + (c % w) == c) by (nonlinear_arith)
        requires
            0 < w,
            0 <= c < h * w,
            c == w * (c / w) + (c % w),
            0 <= c % w < w,
    ;
}

/// Some entry of `wl` names the coordinate (y, x).
pub open spec fn seeded(wl: Seq<Point>, y: int, x: int) -> bool {
    exists|i: int| 0 <= i < wl.len() && (#[trigger] wl[i]).y as int == y && wl[i].x as int == x
}

/// `post` extends `pre` without touching the entries already present.
pub open spec fn events_extended(pre: Seq<ResolvedEvent>, post: Seq<ResolvedEvent>) -> bool {
    pre.len() <= post.len() && forall|i: int| 0 <= i < pre.len() ==> (#[trigger] post[i]) == pre[i]
}

/// Some entry of `evs` with index at least `n0` names the coordinate (y, x).
pub open spec fn appended_contains(n0: int, evs: Seq<ResolvedEvent>, y: int, x: int) -> bool {
    exists|i: int|
        n0 <= i < evs.len() && (#[trigger] evs[i]).p.y as int == y && evs[i].p.x as int == x
}

/// A flat index inside a row's range belongs to that row.
pub proof fn lemma_index_row(w: int, row: int, y: int, x: int)
    requires
        0 < w,
        0 <= x < w,
        0 <= y,
        0 <= row,
        row * w <= y * w + x < row * w + w,
    ensures
        y == row,
{
    assert(y == row) by (nonlinear_arith)
        requires
            0 < w,
            0 <= x < w,
            0 <= y,
            0 <= row,
            row * w <= y * w + x < row * w + w,
    ;
}

/// An edge stays consistent when neither of its endpoint cells changed.
pub proof fn lemma_edge_ok_same_cells(pre: WaveFunction, post: WaveFunction, y: int, x: int, d: int)
    requires
        post.h == pre.h,
        post.w == pre.w,
        post.states == pre.states,
        post.cell(y, x) == pre.cell(y, x),
        post.cell(post.nbr_y(y, d), post.nbr_x(x, d)) == pre.cell(
            pre.nbr_y(y, d),
            pre.nbr_x(x, d),
        ),
        pre.edge_ok(y, x, d),
    ensures
        post.edge_ok(y, x, d),
{
    let ny = post.nbr_y(y, d);
    let nx = post.nbr_x(x, d);
    assert forall|j: int| #[trigger] post.has(ny, nx, j) implies post.projects(y, x, d, j) by {
        assert(pre.has(pre.nbr_y(y, d), pre.nbr_x(x, d), j));
        assert(pre.projects(y, x, d, j));
        let t = choose|t: int| #[trigger] pre.has(y, x, t) && pre.allows(t, d, j);
        assert(post.has(y, x, t) && post.allows(t, d, j));
    }
}

/// Shrinking composes: what shrank from `b`, which shrank from `c`,
/// shrank from `c`.
pub proof fn lemma_shrunk_trans(a: WaveFunction, b: WaveFunction, c: WaveFunction)
    requires
        a.same_shape(b),
        b.same_shape(c),
        a.shrunk_from(b),
        b.shrunk_from(c),
    ensures
        a.same_shape(c),
        a.shrunk_from(c),
{
    assert forall|cc: int, t: int|
        0 <= cc < a.grid@.len() && 0 <= t < a.grid@[cc]@.len() && (
        #[trigger] a.grid@[cc]@[t]) implies c.grid@[cc]@[t] by {
        assert(b.grid@[cc]@[t]);
    }
    assert forall|cc: int|
        0 <= cc < a.grid@.len() implies (#[trigger] a.grid@[cc])@.len() == c.grid@[cc]@.len() by {
        assert(b.grid@[cc]@.len() == c.grid@[cc]@.len());
    }
}

/// An edge whose source cell did not change stays consistent when other
/// cells only shrink.
pub proof fn lemma_edge_ok_preserved(pre: WaveFunction, post: WaveFunction, y: int, x: int, d: int)
    requires
        pre.wf_dims(),
        pre.cells_wf(),
        post.same_shape(pre),
        post.shrunk_from(pre),
        post.valid(y, x),
        0 <= d < 4,
        post.cell(y, x) == pre.cell(y, x),
        pre.edge_ok(y, x, d),
    ensures
        post.edge_ok(y, x, d),
{
    let ny = post.nbr_y(y, d);
    let nx = post.nbr_x(x, d);
    let c = post.index_of(ny, nx);
    lemma_grid_index(pre.h as int, pre.w as int, ny, nx);
    assert(0 <= c < post.grid@.len());
    assert forall|j: int| #[trigger] post.has(ny, nx, j) implies post.projects(y, x, d, j) by {
        assert(post.grid@[c]@[j]);
        assert(post.grid@[c]@.len() == pre.grid@[c]@.len());
        assert(pre.grid@[c]@.len() == pre.num_states());
        assert(pre.grid@[c]@[j]);
        assert(pre.has(ny, nx, j));
        assert(pre.nbr_y(y, d) == ny && pre.nbr_x(x, d) == nx);
        assert(pre.has(pre.nbr_y(y, d), pre.nbr_x(x, d), j));
        assert(pre.projects(y, x, d, j));
        let t = choose|t: int| #[trigger] pre.has(y, x, t) && pre.allows(t, d, j);
        assert(post.has(y, x, t) && post.allows(t, d, j));
    }
}

/// The wave function: the tile catalog, the grid of candidate sets, and
/// the entropy index, collapsing together toward a resolved tiling.
pub struct WaveFunction {
    pub h: usize,
    pub w: usize,
    /// The logical top row for scrolling generation.
    pub top: usize,
    /// Whether the vertical torus seam above the top row is suppressed,
    /// so that a recycled row is constrained only by its real neighbor.
    pub seam_broken: bool,
    /// State of the seeded pseudo-random choice used by collapses.
    pub rng: u64,
    pub states: Vec<State>,
    pub grid: Vec<SuperState>,
    pub entropy: EntropyIndex,
    /// The "cell resolved" notification stream, in order of resolution.
    pub events: Vec<ResolvedEvent>,
}

impl WaveFunction {
    pub open spec fn num_states(self) -> int {
        self.states@.len() as int
    }

    pub open spec fn num_cells(self) -> int {
        self.h as int * self.w as int
    }

    pub open spec fn valid(self, y: int, x: int) -> bool {
        0 <= y < self.h && 0 <= x < self.w
    }

    pub open spec fn index_of(self, y: int, x: int) -> int {
        y * self.w + x
    }

    pub open spec fn cell(self, y: int, x: int) -> Seq<bool> {
        self.grid@[self.index_of(y, x)]@
    }

    pub open spec fn card(self, y: int, x: int) -> nat {
        popcount(self.cell(y, x))
    }

    /// Tile `t` is still possible at cell (y, x).
    pub open spec fn has(self, y: int, x: int, t: int) -> bool {
        0 <= t < self.num_states() && self.cell(y, x)[t]
    }

    pub open spec fn allows(self, t: int, d: int, j: int) -> bool {
        self.states@[t].allows(d, j)
    }

    /// Tile `j` is permitted in the neighbor in direction `d` by some
    /// tile still possible at cell (y, x).
    pub open spec fn projects(self, y: int, x: int, d: int, j: int) -> bool {
        exists|t: int| #[trigger] self.has(y, x, t) && self.allows(t, d, j)
    }

    pub open spec fn nbr_y(self, y: int, d: int) -> int {
        if d == 0 {
            prev_wrap(y, self.h as int)
        } else if d == 1 {
            next_wrap(y, self.h as int)
        } else {
            y
        }
    }

    pub open spec fn nbr_x(self, x: int, d: int) -> int {
        if d == 2 {
            next_wrap(x, self.w as int)
        } else if d == 3 {
            prev_wrap(x, self.w as int)
        } else {
            x
        }
    }

    /// Flat index of the neighbor of (y, x) in direction `d`.
    pub open spec fn target_index(self, y: int, x: int, d: int) -> int {
        self.index_of(self.nbr_y(y, d), self.nbr_x(x, d))
    }

    /// While `seam_broken` is set, the vertical edges that couple the
    /// top row to the row above it (across the scrolling seam) are
    /// exempt from consistency.
    pub open spec fn edge_active(self, y: int, d: int) -> bool {
        !self.seam_broken || !((d == 0 && y == self.top) || (d == 1 && next_wrap(
            y,
            self.h as int,
        ) == self.top))
    }

    /// Arc consistency of one directed edge: every tile still possible
    /// at the neighbor of (y, x) in direction `d` is permitted by some
    /// tile still possible at (y, x).
    pub open spec fn edge_ok(self, y: int, x: int, d: int) -> bool {
        forall|j: int|
            #[trigger] self.has(self.nbr_y(y, d), self.nbr_x(x, d), j) ==> self.projects(
                y,
                x,
                d,
                j,
            )
    }

    /// Arc consistency of every active edge of the grid.
    pub open spec fn all_consistent(self) -> bool {
        forall|y: int, x: int, d: int|
            self.valid(y, x) && 0 <= d < 4 && self.edge_active(y, d) ==> #[trigger] self.edge_ok(
                y,
                x,
                d,
            )
    }

    /// Arc consistency of every active edge except those out of (py, px).
    pub open spec fn consistent_except(self, py: int, px: int) -> bool {
        forall|y: int, x: int, d: int|
            self.valid(y, x) && 0 <= d < 4 && self.edge_active(y, d) && !(y == py && x == px)
                ==> #[trigger] self.edge_ok(y, x, d)
    }

    pub open spec fn wf_dims(self) -> bool {
        &&& self.h >= 1
        &&& self.w >= 1
        &&& self.num_cells() <= usize::MAX
        &&& self.grid@.len() == self.num_cells()
        &&& self.top < self.h
        &&& self.num_states() >= 1
        &&& self.entropy@.len() == self.grid@.len()
    }

    pub open spec fn states_wf(self) -> bool {
        forall|t: int|
            0 <= t < self.num_states() ==> (#[trigger] self.states@[t]).wf_for(self.num_states())
    }

    pub open spec fn cells_wf(self) -> bool {
        forall|c: int|
            0 <= c < self.grid@.len() ==> (#[trigger] self.grid@[c])@.len() == self.num_states()
                && self.grid@[c].wf()
    }

    /// Bucket consistency: the entropy index places every cell in the
    /// bucket of its current cardinality.
    pub open spec fn synced(self) -> bool {
        forall|c: int|
            0 <= c < self.grid@.len() ==> (#[trigger] self.entropy@[c]) == popcount(self.grid@[c]@)
    }

    /// Non-emptiness: every cell keeps at least one candidate.
    pub open spec fn no_cell_empty(self) -> bool {
        forall|c: int| 0 <= c < self.grid@.len() ==> popcount((#[trigger] self.grid@[c])@) >= 1
    }

    pub open spec fn events_wf(self) -> bool {
        forall|i: int|
            0 <= i < self.events@.len() ==> self.valid(
                (#[trigger] self.events@[i]).p.y as int,
                self.events@[i].p.x as int,
            ) && self.events@[i].tile < self.num_states()
    }

    /// The structural invariant that holds between public operations.
    pub open spec fn wf(self) -> bool {
        &&& self.wf_dims()
        &&& self.states_wf()
        &&& self.cells_wf()
        &&& self.synced()
        &&& self.no_cell_empty()
        &&& self.events_wf()
    }

    /// A failed generation attempt: the structure is intact but some
    /// cell has run out of candidates.
    pub open spec fn contradicted(self) -> bool {
        &&& self.wf_dims()
        &&& self.states_wf()
        &&& self.cells_wf()
        &&& self.synced()
        &&& self.events_wf()
        &&& exists|c: int| 0 <= c < self.grid@.len() && popcount((#[trigger] self.grid@[c])@) == 0
    }

    /// The state between picking a cell and collapsing it: the picked
    /// cell is reserved in bucket 1 while it still holds two or more
    /// candidates; everything else is in sync.
    pub open spec fn wf_reserved(self, py: int, px: int) -> bool {
        &&& self.wf_dims()
        &&& self.states_wf()
        &&& self.cells_wf()
        &&& self.no_cell_empty()
        &&& self.events_wf()
        &&& self.valid(py, px)
        &&& popcount(self.cell(py, px)) >= 2
        &&& self.entropy@[self.index_of(py, px)] == 1
        &&& forall|c: int|
            0 <= c < self.grid@.len() && c != self.index_of(py, px) ==> (
            #[trigger] self.entropy@[c]) == popcount(self.grid@[c]@)
    }

    /// What a collapse needs of the state: structure intact, the cell
    /// superposed, and the entropy index in sync everywhere else (the
    /// cell itself may already be reserved in bucket 1).
    pub open spec fn collapse_ready(self, py: int, px: int) -> bool {
        &&& self.wf_dims()
        &&& self.states_wf()
        &&& self.cells_wf()
        &&& self.no_cell_empty()
        &&& self.events_wf()
        &&& self.valid(py, px)
        &&& popcount(self.cell(py, px)) >= 2
        &&& forall|c: int|
            0 <= c < self.grid@.len() && c != self.index_of(py, px) ==> (
            #[trigger] self.entropy@[c]) == popcount(self.grid@[c]@)
        &&& (self.entropy@[self.index_of(py, px)] == 1 || self.entropy@[self.index_of(py, px)]
            == popcount(self.cell(py, px)))
    }

    /// The tile a collapse of cell (py, px) picks: the member of the
    /// candidate set whose rank is the next pseudo-random draw modulo
    /// the cardinality.
    pub open spec fn collapse_choice(self, py: int, px: int) -> int {
        rank_index(
            self.cell(py, px),
            (lcg_next(self.rng) as nat) % popcount(self.cell(py, px)),
        )
    }

    /// The two grids have the same frame: dimensions, tile catalog,
    /// seam configuration, and cell widths.
    pub open spec fn same_shape(self, prior: WaveFunction) -> bool {
        &&& self.h == prior.h
        &&& self.w == prior.w
        &&& self.top == prior.top
        &&& self.seam_broken == prior.seam_broken
        &&& self.states == prior.states
        &&& self.grid@.len() == prior.grid@.len()
        &&& forall|c: int|
            0 <= c < self.grid@.len() ==> (#[trigger] self.grid@[c])@.len() == prior.grid@[c]@.len()
    }

    /// Pointwise monotonicity: every candidate still possible now was
    /// already possible in `prior`.
    pub open spec fn shrunk_from(self, prior: WaveFunction) -> bool {
        forall|c: int, t: int|
            0 <= c < self.grid@.len() && 0 <= t < self.grid@[c]@.len() && (
            #[trigger] self.grid@[c]@[t]) ==> prior.grid@[c]@[t]
    }

    /// Flat index of a coordinate.
    fn idx(&self, y: usize, x: usize) -> (i: usize)
        requires
            self.wf_dims(),
            self.valid(y as int, x as int),
        ensures
            i as int == self.index_of(y as int, x as int),
            i < self.grid@.len(),
    {
        proof {
            lemma_grid_index(self.h as int, self.w as int, y as int, x as int);
        }
        y * self.w + x
    }

    /// The neighboring coordinate in direction `d`, with toroidal
    /// wrap-around on both axes.
    fn nbr(&self, p: &Point, d: usize) -> (q: Point)
        requires
            self.wf_dims(),
            self.valid(p.y as int, p.x as int),
            d < 4,
        ensures
            q.y as int == self.nbr_y(p.y as int, d as int),
            q.x as int == self.nbr_x(p.x as int, d as int),
            self.valid(q.y as int, q.x as int),
    {
        if d == UP {
            Point { y: if p.y == 0 { self.h - 1 } else { p.y - 1 }, x: p.x }
        } else if d == DOWN {
            Point { y: if p.y + 1 == self.h { 0 } else { p.y + 1 }, x: p.x }
        } else if d == RIGHT {
            Point { y: p.y, x: if p.x + 1 == self.w { 0 } else { p.x + 1 } }
        } else {
            Point { y: p.y, x: if p.x == 0 { self.w - 1 } else { p.x - 1 } }
        }
    }

    /// A fresh, fully superposed wave function: every cell holds every
    /// tile, every cell sits in the top entropy bucket.
    pub fn new(states: Vec<State>, h: usize, w: usize, seed: u64, seam_broken: bool) -> (wave:
        WaveFunction)
        requires
            h >= 1,
            w >= 1,
            h as int * w as int <= usize::MAX,
            states@.len() >= 1,
            forall|t: int|
                0 <= t < states@.len() ==> (#[trigger] states@[t]).wf_for(states@.len() as int),
        ensures
            wave.wf(),
            wave.h == h,
            wave.w == w,
            wave.top == 0,
            wave.seam_broken == seam_broken,
            wave.rng == seed,
            wave.states == states,
            wave.events@.len() == 0,
            forall|c: int, t: int|
                0 <= c < wave.grid@.len() && 0 <= t < states@.len() ==> #[trigger] wave.grid@[c]@[t],
            forall|c: int|
                0 <= c < wave.grid@.len() ==> popcount((#[trigger] wave.grid@[c])@)
                    == states@.len(),
    {
        let k = states.len();
        let n = h * w;
        let mut grid: Vec<SuperState> = Vec::new();
        let mut c: usize = 0;
        while c < n
            invariant
                c <= n,
                grid@.len() == c,
                forall|i: int|
                    0 <= i < c ==> (#[trigger] grid@[i])@.len() == k && grid@[i].wf() && popcount(
                        grid@[i]@,
                    ) == k,
                forall|i: int, t: int| 0 <= i < c && 0 <= t < k ==> #[trigger] grid@[i]@[t],
            decreases n - c,
        {
            let ss = SuperState::full(k);
            grid.push(ss);
            c += 1;
        }
        let entropy = EntropyIndex::new(n, k);
        WaveFunction {
            h,
            w,
            top: 0,
            seam_broken,
            rng: seed,
            states,
            grid,
            entropy,
            events: Vec::new(),
        }
    }

    /// Shared access to the candidate set at `p`.
    pub fn ss_ref(&self, p: &Point) -> (s: &SuperState)
        requires
            self.wf_dims(),
            self.valid(p.y as int, p.x as int),
        ensures
            *s == self.grid@[self.index_of(p.y as int, p.x as int)],
    {
        let i = self.idx(p.y, p.x);
        &self.grid[i]
    }

    /// Mutable access to the candidate set at `p`. A caller that writes
    /// through it is responsible for re-establishing the invariant.
    pub fn ss(&mut self, p: &Point) -> (s: &mut SuperState)
        requires
            old(self).wf_dims(),
            old(self).valid(p.y as int, p.x as int),
        ensures
            *s == old(self).grid@[old(self).index_of(p.y as int, p.x as int)],
            final(self).grid@ == old(self).grid@.update(
                old(self).index_of(p.y as int, p.x as int),
                *final(s),
            ),
            final(self).h == old(self).h,
            final(self).w == old(self).w,
            final(self).top == old(self).top,
            final(self).seam_broken == old(self).seam_broken,
            final(self).rng == old(self).rng,
            final(self).states == old(self).states,
            final(self).entropy == old(self).entropy,
            final(self).events == old(self).events,
    {
        let i = self.idx(p.y, p.x);
        &mut self.grid[i]
    }

    /// Whether the cell at `p` still holds two or more candidates.
    pub fn is_superpositioned(&self, p: &Point) -> (b: bool)
        requires
            self.wf_dims(),
            self.cells_wf(),
            self.valid(p.y as int, p.x as int),
        ensures
            b == (self.card(p.y as int, p.x as int) >= 2),
    {
        let i = self.idx(p.y, p.x);
        self.grid[i].count() >= 2
    }

    /// The first remaining tile at `p`; for a resolved cell, its value.
    pub fn stateAt(&self, p: &Point) -> (t: usize)
        requires
            self.wf_dims(),
            self.cells_wf(),
            self.valid(p.y as int, p.x as int),
            self.card(p.y as int, p.x as int) >= 1,
        ensures
            t as int == rank_index(self.cell(p.y as int, p.x as int), 0),
            self.has(p.y as int, p.x as int, t as int),
    {
        let i = self.idx(p.y, p.x);
        self.grid[i].state()
    }

    /// The glyph of the first remaining tile at `p`.
    pub fn glyphAt(&self, p: &Point) -> (g: &Glyph)
        requires
            self.wf_dims(),
            self.cells_wf(),
            self.valid(p.y as int, p.x as int),
            self.card(p.y as int, p.x as int) >= 1,
        ensures
            *g == self.states@[rank_index(self.cell(p.y as int, p.x as int), 0)].glyph,
    {
        let t = self.stateAt(p);
        &self.states[t].glyph
    }

    /// What an observer sees of the cell at `p`.
    pub fn cell_state(&self, p: &Point) -> (s: CellState)
        requires
            self.wf_dims(),
            self.cells_wf(),
            self.valid(p.y as int, p.x as int),
        ensures
            self.card(p.y as int, p.x as int) == 0 ==> s == CellState::Contradiction,
            self.card(p.y as int, p.x as int) == 1 ==> (s matches CellState::Resolved(t)
                && t as int == rank_index(self.cell(p.y as int, p.x as int), 0)),
            self.card(p.y as int, p.x as int) >= 2 ==> s == CellState::Superposed(
                self.card(p.y as int, p.x as int) as usize,
            ),
    {
        let i = self.idx(p.y, p.x);
        let c = self.grid[i].count();
        if c == 0 {
            CellState::Contradiction
        } else if c == 1 {
            CellState::Resolved(self.grid[i].state())
        } else {
            CellState::Superposed(c)
        }
    }

    /// The notification stream so far: one entry per resolution, in the
    /// order the cells resolved.
    pub fn events(&self) -> (e: &Vec<ResolvedEvent>)
        ensures
            e == self.events,
    {
        &self.events
    }

    /// The projected allowed set at `p` toward direction `dir`: the
    /// union, over the tiles still possible at `p`, of the neighbors
    /// each permits in that direction.
    pub fn projection_ss(&self, p: &Point, dir: usize) -> (ss: SuperState)
        requires
            self.wf_dims(),
            self.cells_wf(),
            self.states_wf(),
            self.valid(p.y as int, p.x as int),
            dir < 4,
        ensures
            ss@.len() == self.num_states(),
            ss.wf(),
            forall|j: int|
                0 <= j < self.num_states() ==> ((#[trigger] ss@[j]) <==> self.projects(
                    p.y as int,
                    p.x as int,
                    dir as int,
                    j,
                )),
    {
        let ghost py: int = p.y as int;
        let ghost px: int = p.x as int;
        let i = self.idx(p.y, p.x);
        let k = self.states.len();
        let mut bits: Vec<bool> = Vec::new();
        let mut count: usize = 0;
        let mut j: usize = 0;
        while j < k
            invariant
                j <= k,
                bits@.len() == j,
                forall|t: int| 0 <= t < j ==> !(#[trigger] bits@[t]),
            decreases k - j,
        {
            bits.push(false);
            j += 1;
        }
        proof {
            lemma_popcount_zero(bits@);
        }
        let mut t: usize = 0;
        while t < k
            invariant
                t <= k,
                self.wf_dims(),
                self.cells_wf(),
                self.states_wf(),
                self.valid(py, px),
                dir < 4,
                py == p.y as int,
                px == p.x as int,
                i as int == self.index_of(py, px),
                i < self.grid@.len(),
                k == self.num_states(),
                bits@.len() == k,
                count == popcount(bits@),
                forall|jj: int|
                    0 <= jj < k ==> ((#[trigger] bits@[jj]) <==> exists|u: int|
                        0 <= u < t && #[trigger] self.has(py, px, u) && self.allows(
                            u,
                            dir as int,
                            jj,
                        )),
            decreases k - t,
        {
            let ghost bits0 = bits@;
            if self.grid[i].contains(t) {
                assert(self.has(py, px, t as int));
                let mut jj: usize = 0;
                while jj < k
                    invariant
                        jj <= k,
                        self.wf_dims(),
                        self.cells_wf(),
                        self.states_wf(),
                        dir < 4,
                        t < k,
                        k == self.num_states(),
                        bits@.len() == k,
                        bits0.len() == k,
                        count == popcount(bits@),
                        forall|q: int|
                            0 <= q < jj ==> ((#[trigger] bits@[q]) <==> (bits0[q] || self.allows(
                                t as int,
                                dir as int,
                                q,
                            ))),
                        forall|q: int| jj <= q < k ==> (#[trigger] bits@[q]) == bits0[q],
                    decreases k - jj,
                {
                    let allowed = self.states[t].projections[dir].contains(jj);
                    if allowed && !bits[jj] {
                        proof {
                            lemma_popcount_update(bits@, jj as int, true);
                            lemma_popcount_le_len(bits@.update(jj as int, true));
                        }
                        bits.set(jj, true);
                        count += 1;
                    }
                    jj += 1;
                }
                proof {
                    assert forall|q: int| 0 <= q < k implies ((#[trigger] bits@[q]) <==> exists|
                        u: int,
                    |
                        0 <= u < t + 1 && #[trigger] self.has(py, px, u) && self.allows(
                            u,
                            dir as int,
                            q,
                        )) by {
                        if bits@[q] {
                            if bits0[q] {
                                let u = choose|u: int|
                                    0 <= u < t && #[trigger] self.has(py, px, u) && self.allows(
                                        u,
                                        dir as int,
                                        q,
                                    );
                                assert(self.has(py, px, u) && self.allows(u, dir as int, q));
                            } else {
                                assert(self.has(py, px, t as int) && self.allows(
                                    t as int,
                                    dir as int,
                                    q,
                                ));
                            }
                        }
                        if exists|u: int|
                            0 <= u < t + 1 && #[trigger] self.has(py, px, u) && self.allows(
                                u,
                                dir as int,
                                q,
                            ) {
                            let u = choose|u: int|
                                0 <= u < t + 1 && #[trigger] self.has(py, px, u) && self.allows(
                                    u,
                                    dir as int,
                                    q,
                                );
                            if u < t {
                                assert(bits0[q]);
                            } else {
                                assert(self.allows(t as int, dir as int, q));
                            }
                        }
                    }
                }
            } else {
                proof {
                    assert forall|q: int| 0 <= q < k implies ((#[trigger] bits@[q]) <==> exists|
                        u: int,
                    |
                        0 <= u < t + 1 && #[trigger] self.has(py, px, u) && self.allows(
                            u,
                            dir as int,
                            q,
                        )) by {
                        if exists|u: int|
                            0 <= u < t + 1 && #[trigger] self.has(py, px, u) && self.allows(
                                u,
                                dir as int,
                                q,
                            ) {
                            let u = choose|u: int|
                                0 <= u < t + 1 && #[trigger] self.has(py, px, u) && self.allows(
                                    u,
                                    dir as int,
                                    q,
                                );
                            assert(u < t);
                        }
                    }
                }
            }
            t += 1;
        }
        SuperState { bits, count }
    }

    /// Enforce one directed edge: intersect the candidate set of the
    /// neighbor of `op` in direction `dir` with the set projected from
    /// `op`, recording the entropy move and emitting a "resolved" event
    /// when the neighbor drops to a single candidate. An edge across
    /// the broken seam is left alone.
    pub fn projectdir(&mut self, op: &Point, dir: usize) -> (r: EdgeOutcome)
        requires
            old(self).wf_dims(),
            old(self).states_wf(),
            old(self).cells_wf(),
            old(self).synced(),
            old(self).events_wf(),
            old(self).valid(op.y as int, op.x as int),
            dir < 4,
        ensures
            final(self).same_shape(*old(self)),
            final(self).shrunk_from(*old(self)),
            final(self).rng == old(self).rng,
            final(self).states_wf(),
            final(self).cells_wf(),
            final(self).synced(),
            final(self).events_wf(),
            final(self).wf_dims(),
            match r {
                EdgeOutcome::Unchanged => {
                    &&& *final(self) == *old(self)
                    &&& old(self).edge_active(op.y as int, dir as int) ==> old(self).edge_ok(
                        op.y as int,
                        op.x as int,
                        dir as int,
                    )
                },
                EdgeOutcome::Reduced(q, newc) => ({
                    let ti = old(self).target_index(op.y as int, op.x as int, dir as int);
                    &&& q.y as int == old(self).nbr_y(op.y as int, dir as int)
                    &&& q.x as int == old(self).nbr_x(op.x as int, dir as int)
                    &&& old(self).edge_active(op.y as int, dir as int)
                    &&& final(self).grid@ == old(self).grid@.update(ti, final(self).grid@[ti])
                    &&& final(self).entropy@ == old(self).entropy@.update(ti, newc)
                    &&& popcount(final(self).grid@[ti]@) == newc
                    &&& 1 <= newc < popcount(old(self).grid@[ti]@)
                    &&& forall|t: int|
                        0 <= t < old(self).num_states() ==> ((#[trigger] final(self).grid@[ti]@[t])
                            <==> (old(self).grid@[ti]@[t] && old(self).projects(
                            op.y as int,
                            op.x as int,
                            dir as int,
                            t,
                        )))
                    &&& (old(self).no_cell_empty() ==> final(self).no_cell_empty())
                    &&& (ti != old(self).index_of(op.y as int, op.x as int) ==> final(self).edge_ok(
                        op.y as int,
                        op.x as int,
                        dir as int,
                    ))
                    &&& if newc == 1 {
                        &&& final(self).events@.len() == old(self).events@.len() + 1
                        &&& final(self).events@.drop_last() == old(self).events@
                        &&& final(self).events@.last().p == q
                        &&& final(self).events@.last().tile as int == rank_index(
                            final(self).grid@[ti]@,
                            0,
                        )
                    } else {
                        final(self).events@ == old(self).events@
                    }
                }),
                EdgeOutcome::Emptied(q) => ({
                    let ti = old(self).target_index(op.y as int, op.x as int, dir as int);
                    &&& q.y as int == old(self).nbr_y(op.y as int, dir as int)
                    &&& q.x as int == old(self).nbr_x(op.x as int, dir as int)
                    &&& old(self).edge_active(op.y as int, dir as int)
                    &&& final(self).grid@ == old(self).grid@.update(ti, final(self).grid@[ti])
                    &&& final(self).entropy@ == old(self).entropy@.update(ti, 0usize)
                    &&& popcount(final(self).grid@[ti]@) == 0
                    &&& popcount(old(self).grid@[ti]@) >= 1
                    &&& forall|t: int|
                        0 <= t < old(self).num_states() ==> ((#[trigger] final(self).grid@[ti]@[t])
                            <==> (old(self).grid@[ti]@[t] && old(self).projects(
                            op.y as int,
                            op.x as int,
                            dir as int,
                            t,
                        )))
                    &&& final(self).events@ == old(self).events@
                }),
            },
    {
        let ghost pre = *self;
        let ghost opy: int = op.y as int;
        let ghost opx: int = op.x as int;
        if self.seam_broken {
            let next_y = if op.y + 1 == self.h {
                0
            } else {
                op.y + 1
            };
            if (dir == UP && op.y == self.top) || (dir == DOWN && next_y == self.top) {
                return EdgeOutcome::Unchanged;
            }
        }
        assert(pre.edge_active(opy, dir as int));
        let q = self.nbr(op, dir);
        let ti = self.idx(q.y, q.x);
        let pr = self.projection_ss(op, dir);
        let oldc = self.grid[ti].count();
        let inter = self.grid[ti].intersect(&pr);
        let newc = inter.count();
        proof {
            lemma_popcount_subset(inter@, self.grid@[ti as int]@);
        }
        if newc == oldc {
            proof {
                lemma_popcount_subset_eq(inter@, self.grid@[ti as int]@);
                assert forall|j: int|
                    #[trigger] pre.has(q.y as int, q.x as int, j) implies pre.projects(
                    opy,
                    opx,
                    dir as int,
                    j,
                ) by {
                    assert(inter@[j]);
                    assert(pr@[j]);
                }
            }
            return EdgeOutcome::Unchanged;
        }
        self.grid.set(ti, inter);
        self.entropy.record(ti, oldc, newc);
        proof {
            assert(self.grid@[ti as int]@.len() == pre.num_states());
            assert forall|c: int|
                0 <= c < self.grid@.len() implies (#[trigger] self.entropy@[c]) == popcount(
                self.grid@[c]@,
            ) by {
                if c != ti as int {
                    assert(self.grid@[c] == pre.grid@[c]);
                }
            }
            assert forall|c: int, t: int|
                0 <= c < self.grid@.len() && 0 <= t < self.grid@[c]@.len() && (
                #[trigger] self.grid@[c]@[t]) implies pre.grid@[c]@[t] by {
                if c != ti as int {
                    assert(self.grid@[c] == pre.grid@[c]);
                }
            }
        }
        if newc == 0 {
            return EdgeOutcome::Emptied(q);
        }
        if newc == 1 {
            let tile = self.grid[ti].state();
            self.events.push(ResolvedEvent { p: q, tile });
            proof {
                assert(self.events@.drop_last() =~= pre.events@);
            }
        }
        proof {
            if ti as int != pre.index_of(opy, opx) {
                lemma_grid_index(pre.h as int, pre.w as int, opy, opx);
                assert(self.grid@[pre.index_of(opy, opx)] == pre.grid@[pre.index_of(opy, opx)]);
                assert(self.cell(opy, opx) == pre.cell(opy, opx));
                assert forall|j: int|
                    #[trigger] self.has(q.y as int, q.x as int, j) implies self.projects(
                    opy,
                    opx,
                    dir as int,
                    j,
                ) by {
                    assert(inter@[j]);
                    assert(pr@[j]);
                    assert(pre.projects(opy, opx, dir as int, j));
                    let t = choose|t: int|
                        #[trigger] pre.has(opy, opx, t) && pre.allows(t, dir as int, j);
                    assert(self.has(opy, opx, t) && self.allows(t, dir as int, j));
                }
            }
        }
        EdgeOutcome::Reduced(q, newc)
    }

    /// The propagation closure: starting from the seed coordinates,
    /// repeatedly enforce the four edges out of each pending cell,
    /// queueing every neighbor that shrank, until nothing is pending
    /// (arc consistency) or some cell runs out of candidates
    /// (contradiction, fatal to this generation attempt).
    #[verifier::loop_isolation(false)]
    #[verifier::rlimit(100)]
    fn propagate(&mut self, seeds: Vec<Point>) -> (r: Result<(), ContradictionError>)
        requires
            old(self).wf(),
            forall|i: int|
                0 <= i < seeds@.len() ==> old(self).valid(
                    (#[trigger] seeds@[i]).y as int,
                    seeds@[i].x as int,
                ),
        ensures
            final(self).same_shape(*old(self)),
            final(self).shrunk_from(*old(self)),
            final(self).rng == old(self).rng,
            events_extended(old(self).events@, final(self).events@),
            sum_cards(final(self).grid@) <= sum_cards(old(self).grid@),
            old(self).all_consistent() ==> (r is Ok && final(self).grid@ == old(self).grid@
                && final(self).entropy@ == old(self).entropy@ && final(self).events@ == old(
                self,
            ).events@),
            match r {
                Ok(_) => {
                    &&& final(self).wf()
                    &&& forall|y: int, x: int, d: int|
                        #![trigger final(self).edge_ok(y, x, d)]
                        final(self).valid(y, x) && 0 <= d < 4 && final(self).edge_active(y, d) && (
                        old(self).edge_ok(y, x, d) || seeded(seeds@, y, x) || final(self).cell(
                            y,
                            x,
                        ) != old(self).cell(y, x)) ==> final(self).edge_ok(y, x, d)
                    &&& forall|y: int, x: int|
                        #![trigger final(self).cell(y, x)]
                        final(self).valid(y, x) ==> ((popcount(old(self).cell(y, x)) >= 2
                            && popcount(final(self).cell(y, x)) == 1) <==> appended_contains(
                            old(self).events@.len() as int,
                            final(self).events@,
                            y,
                            x,
                        ))
                    &&& forall|i: int|
                        old(self).events@.len() <= i < final(self).events@.len() ==> popcount(
                            final(self).cell(
                                (#[trigger] final(self).events@[i]).p.y as int,
                                final(self).events@[i].p.x as int,
                            ),
                        ) == 1 && final(self).events@[i].tile as int == rank_index(
                            final(self).cell(
                                final(self).events@[i].p.y as int,
                                final(self).events@[i].p.x as int,
                            ),
                            0,
                        )
                    &&& forall|i: int, j: int|
                        old(self).events@.len() <= i < j < final(self).events@.len() ==> (
                        #[trigger] final(self).events@[i]).p != (#[trigger] final(self).events@[j]).p
                },
                Err(e) => {
                    &&& final(self).contradicted()
                    &&& final(self).valid(e.p.y as int, e.p.x as int)
                    &&& popcount(final(self).cell(e.p.y as int, e.p.x as int)) == 0
                },
            },
    {
        let ghost pre = *self;
        let ghost wl0 = seeds@;
        let mut wl = seeds;
        while wl.len() > 0
            invariant
                self.same_shape(pre),
                self.shrunk_from(pre),
                self.rng == pre.rng,
                self.wf(),
                events_extended(pre.events@, self.events@),
                sum_cards(self.grid@) <= sum_cards(pre.grid@),
                forall|i: int|
                    0 <= i < wl@.len() ==> self.valid(
                        (#[trigger] wl@[i]).y as int,
                        wl@[i].x as int,
                    ),
                forall|y: int, x: int, dd: int|
                    #![trigger self.edge_ok(y, x, dd)]
                    self.valid(y, x) && 0 <= dd < 4 && self.edge_active(y, dd) ==> (self.edge_ok(
                        y,
                        x,
                        dd,
                    ) || seeded(wl@, y, x) || (!pre.edge_ok(y, x, dd) && !seeded(wl0, y, x)
                        && self.cell(y, x) == pre.cell(y, x))),
                pre.all_consistent() ==> (self.grid@ == pre.grid@ && self.entropy@ == pre.entropy@
                    && self.events@ == pre.events@),
                forall|y: int, x: int|
                    #![trigger self.cell(y, x)]
                    self.valid(y, x) && popcount(pre.cell(y, x)) >= 2 && popcount(self.cell(y, x))
                        == 1 ==> appended_contains(pre.events@.len() as int, self.events@, y, x),
                forall|i: int|
                    pre.events@.len() <= i < self.events@.len() ==> popcount(
                        self.cell(
                            (#[trigger] self.events@[i]).p.y as int,
                            self.events@[i].p.x as int,
                        ),
                    ) == 1 && self.events@[i].tile as int == rank_index(
                        self.cell(self.events@[i].p.y as int, self.events@[i].p.x as int),
                        0,
                    ) && popcount(pre.cell(self.events@[i].p.y as int, self.events@[i].p.x as int))
                        >= 2,
                forall|i: int, j: int|
                    pre.events@.len() <= i < j < self.events@.len() ==> (
                    #[trigger] self.events@[i]).p != (#[trigger] self.events@[j]).p,
            decreases 5 * sum_cards(self.grid@) + wl@.len(),
        {
            let ghost m0 = 5 * sum_cards(self.grid@) as int + wl@.len() as int;
            let ghost wlp = wl@;
            let op = wl.pop().unwrap();
            proof {
                assert(wl@ =~= wlp.drop_last());
                assert(op == wlp.last());
                assert forall|y: int, x: int, dd: int|
                    self.valid(y, x) && 0 <= dd < 4 && self.edge_active(y, dd) implies (
                #[trigger] self.edge_ok(y, x, dd) || seeded(wl@, y, x) || (y == op.y as int && x
                    == op.x as int) || (!pre.edge_ok(y, x, dd) && !seeded(wl0, y, x) && self.cell(
                    y,
                    x,
                ) == pre.cell(y, x))) by {
                    if !self.edge_ok(y, x, dd) && !(y == op.y as int && x == op.x as int) && !(
                    !pre.edge_ok(y, x, dd) && !seeded(wl0, y, x) && self.cell(y, x) == pre.cell(
                        y,
                        x,
                    )) {
                        assert(seeded(wlp, y, x));
                        let i = choose|i: int|
                            0 <= i < wlp.len() && (#[trigger] wlp[i]).y as int == y && wlp[i].x
                                as int == x;
                        if i < wlp.len() - 1 {
                            assert(wl@[i] == wlp[i]);
                            assert(seeded(wl@, y, x));
                        } else {
                            assert(wlp[i] == op);
                        }
                    }
                }
            }
            let mut d: usize = 0;
            while d < 4
                invariant
                    d <= 4,
                    self.valid(op.y as int, op.x as int),
                    self.same_shape(pre),
                    self.shrunk_from(pre),
                    self.rng == pre.rng,
                    self.wf(),
                    events_extended(pre.events@, self.events@),
                    sum_cards(self.grid@) <= sum_cards(pre.grid@),
                    5 * sum_cards(self.grid@) as int + wl@.len() as int <= m0 - 1,
                    forall|i: int|
                        0 <= i < wl@.len() ==> self.valid(
                            (#[trigger] wl@[i]).y as int,
                            wl@[i].x as int,
                        ),
                    forall|y: int, x: int, dd: int|
                        #![trigger self.edge_ok(y, x, dd)]
                        self.valid(y, x) && 0 <= dd < 4 && self.edge_active(y, dd) ==> (
                        self.edge_ok(y, x, dd) || seeded(wl@, y, x) || (y == op.y as int && x
                            == op.x as int && dd >= d) || (!pre.edge_ok(y, x, dd) && !seeded(
                            wl0,
                            y,
                            x,
                        ) && self.cell(y, x) == pre.cell(y, x))),
                    pre.all_consistent() ==> (self.grid@ == pre.grid@ && self.entropy@
                        == pre.entropy@ && self.events@ == pre.events@),
                    forall|y: int, x: int|
                        #![trigger self.cell(y, x)]
                        self.valid(y, x) && popcount(pre.cell(y, x)) >= 2 && popcount(
                            self.cell(y, x),
                        ) == 1 ==> appended_contains(
                            pre.events@.len() as int,
                            self.events@,
                            y,
                            x,
                        ),
                    forall|i: int|
                        pre.events@.len() <= i < self.events@.len() ==> popcount(
                            self.cell(
                                (#[trigger] self.events@[i]).p.y as int,
                                self.events@[i].p.x as int,
                            ),
                        ) == 1 && self.events@[i].tile as int == rank_index(
                            self.cell(self.events@[i].p.y as int, self.events@[i].p.x as int),
                            0,
                        ) && popcount(
                            pre.cell(self.events@[i].p.y as int, self.events@[i].p.x as int),
                        ) >= 2,
                    forall|i: int, j: int|
                        pre.events@.len() <= i < j < self.events@.len() ==> (
                        #[trigger] self.events@[i]).p != (#[trigger] self.events@[j]).p,
                decreases 4 - d,
            {
                let ghost s1 = *self;
                let ghost wlb = wl@;
                let r = self.projectdir(&op, d);
                match r {
                    EdgeOutcome::Unchanged => {
                        proof {
                            assert(*self == s1);
                            assert forall|y: int, x: int, dd: int|
                                self.valid(y, x) && 0 <= dd < 4 && self.edge_active(y, dd) implies (
                            #[trigger] self.edge_ok(y, x, dd) || seeded(wl@, y, x) || (y == op.y
                                as int && x == op.x as int && dd >= d + 1) || (!pre.edge_ok(
                                y,
                                x,
                                dd,
                            ) && !seeded(wl0, y, x) && self.cell(y, x) == pre.cell(y, x))) by {
                                if y == op.y as int && x == op.x as int && dd == d as int {
                                    assert(self.edge_ok(y, x, dd));
                                }
                            }
                        }
                    },
                    EdgeOutcome::Reduced(q, newc) => {
                        proof {
                            assert(self.valid(q.y as int, q.x as int));
                        }
                        let ghost ti = s1.target_index(op.y as int, op.x as int, d as int);
                        proof {
                            assert(ti == s1.index_of(q.y as int, q.x as int));
                            lemma_grid_index(
                                s1.h as int,
                                s1.w as int,
                                q.y as int,
                                q.x as int,
                            );
                            lemma_sum_cards_update(s1.grid@, ti, self.grid@[ti]);
                            lemma_shrunk_trans(*self, s1, pre);
                        }
                        wl.push(q);
                        proof {
                            assert(wl@ =~= wlb.push(q));
                            assert(wl@[wl@.len() - 1] == q);
                            assert(seeded(wl@, q.y as int, q.x as int));
                            assert forall|i: int|
                                0 <= i < wl@.len() implies self.valid(
                                (#[trigger] wl@[i]).y as int,
                                wl@[i].x as int,
                            ) by {
                                if i < wlb.len() {
                                    assert(wl@[i] == wlb[i]);
                                }
                            }
                            // consistency bookkeeping
                            assert forall|y: int, x: int, dd: int|
                                self.valid(y, x) && 0 <= dd < 4 && self.edge_active(y, dd) implies (
                            #[trigger] self.edge_ok(y, x, dd) || seeded(wl@, y, x) || (y == op.y
                                as int && x == op.x as int && dd >= d + 1) || (!pre.edge_ok(
                                y,
                                x,
                                dd,
                            ) && !seeded(wl0, y, x) && self.cell(y, x) == pre.cell(y, x))) by {
                                lemma_grid_index(s1.h as int, s1.w as int, y, x);
                                let ci = s1.index_of(y, x);
                                if seeded(wlb, y, x) {
                                    let i = choose|i: int|
                                        0 <= i < wlb.len() && (#[trigger] wlb[i]).y as int == y
                                            && wlb[i].x as int == x;
                                    assert(wl@[i] == wlb[i]);
                                    assert(seeded(wl@, y, x));
                                } else if ci == ti {
                                    lemma_grid_index_inj(
                                        s1.w as int,
                                        y,
                                        x,
                                        q.y as int,
                                        q.x as int,
                                    );
                                    assert(seeded(wl@, y, x));
                                } else if y == op.y as int && x == op.x as int && dd >= d {
                                    if dd == d {
                                        assert(ti != s1.index_of(op.y as int, op.x as int));
                                        assert(self.edge_ok(y, x, dd));
                                    }
                                } else if s1.edge_ok(y, x, dd) {
                                    assert(self.grid@[ci] == s1.grid@[ci]);
                                    assert(self.cell(y, x) == s1.cell(y, x));
                                    lemma_edge_ok_preserved(s1, *self, y, x, dd);
                                } else {
                                    assert(!pre.edge_ok(y, x, dd) && !seeded(wl0, y, x)
                                        && s1.cell(y, x) == pre.cell(y, x));
                                    assert(self.grid@[ci] == s1.grid@[ci]);
                                    assert(self.cell(y, x) == pre.cell(y, x));
                                }
                            }
                            // the picked cell was superposed at entry
                            assert(popcount(pre.grid@[ti]@) >= popcount(s1.grid@[ti]@)) by {
                                lemma_popcount_subset(s1.grid@[ti]@, pre.grid@[ti]@);
                            }
                            assert(events_extended(pre.events@, self.events@)) by {
                                if newc == 1 {
                                    assert forall|i: int|
                                        0 <= i < pre.events@.len() implies (
                                    #[trigger] self.events@[i]) == pre.events@[i] by {
                                        assert(self.events@.drop_last()[i] == self.events@[i]);
                                        assert(s1.events@[i] == pre.events@[i]);
                                    }
                                }
                            }
                            // notification bookkeeping
                            assert forall|y: int, x: int|
                                self.valid(y, x) && popcount(pre.cell(y, x)) >= 2 && popcount(
                                    self.cell(y, x),
                                ) == 1 implies appended_contains(
                                pre.events@.len() as int,
                                self.events@,
                                y,
                                x,
                            ) by {
                                lemma_grid_index(s1.h as int, s1.w as int, y, x);
                                let ci = s1.index_of(y, x);
                                if ci == ti {
                                    lemma_grid_index_inj(
                                        s1.w as int,
                                        y,
                                        x,
                                        q.y as int,
                                        q.x as int,
                                    );
                                    assert(newc == 1);
                                    assert(self.events@[self.events@.len() - 1].p == q);
                                    assert(appended_contains(
                                        pre.events@.len() as int,
                                        self.events@,
                                        y,
                                        x,
                                    ));
                                } else {
                                    assert(self.cell(y, x) == s1.cell(y, x));
                                    assert(appended_contains(
                                        pre.events@.len() as int,
                                        s1.events@,
                                        y,
                                        x,
                                    ));
                                    let i = choose|i: int|
                                        pre.events@.len() <= i < s1.events@.len() && (
                                        #[trigger] s1.events@[i]).p.y as int == y
                                            && s1.events@[i].p.x as int == x;
                                    assert(self.events@[i] == s1.events@[i]);
                                    assert(appended_contains(
                                        pre.events@.len() as int,
                                        self.events@,
                                        y,
                                        x,
                                    ));
                                }
                            }
                            assert forall|i: int|
                                pre.events@.len() <= i < self.events@.len() implies popcount(
                                self.cell(
                                    (#[trigger] self.events@[i]).p.y as int,
                                    self.events@[i].p.x as int,
                                ),
                            ) == 1 && self.events@[i].tile as int == rank_index(
                                self.cell(self.events@[i].p.y as int, self.events@[i].p.x as int),
                                0,
                            ) && popcount(
                                pre.cell(self.events@[i].p.y as int, self.events@[i].p.x as int),
                            ) >= 2 by {
                                let ev = self.events@[i];
                                lemma_grid_index(
                                    s1.h as int,
                                    s1.w as int,
                                    ev.p.y as int,
                                    ev.p.x as int,
                                );
                                let ci = s1.index_of(ev.p.y as int, ev.p.x as int);
                                if i < s1.events@.len() {
                                    assert(self.events@[i] == s1.events@[i]);
                                    if ci == ti {
                                        // an already resolved cell cannot be the one
                                        // that just shrank from two or more candidates
                                        assert(popcount(s1.cell(ev.p.y as int, ev.p.x as int))
                                            == 1);
                                        assert(popcount(s1.grid@[ti]@) >= 2);
                                        assert(false);
                                    } else {
                                        assert(self.cell(ev.p.y as int, ev.p.x as int) == s1.cell(
                                            ev.p.y as int,
                                            ev.p.x as int,
                                        ));
                                    }
                                } else {
                                    assert(newc == 1);
                                    assert(ev.p == q);
                                    assert(ci == ti) by {
                                        lemma_grid_index(
                                            s1.h as int,
                                            s1.w as int,
                                            q.y as int,
                                            q.x as int,
                                        );
                                    }
                                    assert(popcount(self.cell(ev.p.y as int, ev.p.x as int)) == 1);
                                }
                            }
                            assert forall|i: int, j: int|
                                pre.events@.len() <= i < j < self.events@.len() implies (
                            #[trigger] self.events@[i]).p != (#[trigger] self.events@[j]).p by {
                                if j < s1.events@.len() {
                                    assert(self.events@[i] == s1.events@[i]);
                                    assert(self.events@[j] == s1.events@[j]);
                                } else {
                                    assert(newc == 1);
                                    assert(self.events@[j].p == q);
                                    assert(self.events@[i] == s1.events@[i]);
                                    let ev = s1.events@[i];
                                    if ev.p == q {
                                        assert(popcount(s1.cell(q.y as int, q.x as int)) == 1);
                                        assert(popcount(s1.grid@[ti]@) >= 2);
                                        lemma_grid_index(
                                            s1.h as int,
                                            s1.w as int,
                                            q.y as int,
                                            q.x as int,
                                        );
                                        assert(false);
                                    }
                                }
                            }
                            // a consistent start would not have shrunk anything
                            if pre.all_consistent() {
                                assert(s1.grid@ == pre.grid@);
                                assert(pre.edge_ok(op.y as int, op.x as int, d as int));
                                assert(s1.edge_ok(op.y as int, op.x as int, d as int)) by {
                                    assert forall|j: int|
                                        #[trigger] s1.has(
                                            s1.nbr_y(op.y as int, d as int),
                                            s1.nbr_x(op.x as int, d as int),
                                            j,
                                        ) implies s1.projects(op.y as int, op.x as int, d as int, j) by {
                                        assert(pre.has(
                                            pre.nbr_y(op.y as int, d as int),
                                            pre.nbr_x(op.x as int, d as int),
                                            j,
                                        ));
                                        assert(pre.projects(op.y as int, op.x as int, d as int, j));
                                        let t = choose|t: int|
                                            #[trigger] pre.has(op.y as int, op.x as int, t)
                                                && pre.allows(t, d as int, j);
                                        assert(s1.has(op.y as int, op.x as int, t));
                                    }
                                }
                                assert forall|t: int|
                                    0 <= t < self.grid@[ti]@.len() implies (
                                #[trigger] self.grid@[ti]@[t]) == s1.grid@[ti]@[t] by {
                                    if s1.grid@[ti]@[t] {
                                        assert(s1.has(q.y as int, q.x as int, t));
                                        assert(s1.has(
                                            s1.nbr_y(op.y as int, d as int),
                                            s1.nbr_x(op.x as int, d as int),
                                            t,
                                        ));
                                        assert(s1.projects(op.y as int, op.x as int, d as int, t));
                                    }
                                }
                                assert(self.grid@[ti]@ =~= s1.grid@[ti]@);
                                assert(popcount(self.grid@[ti]@) == popcount(s1.grid@[ti]@));
                                assert(false);
                            }
                        }
                    },
                    EdgeOutcome::Emptied(q) => {
                        let ghost ti = s1.target_index(op.y as int, op.x as int, d as int);
                        proof {
                            assert(self.valid(q.y as int, q.x as int));
                            assert(ti == s1.index_of(q.y as int, q.x as int));
                            lemma_grid_index(
                                s1.h as int,
                                s1.w as int,
                                q.y as int,
                                q.x as int,
                            );
                            lemma_sum_cards_update(s1.grid@, ti, self.grid@[ti]);
                            lemma_shrunk_trans(*self, s1, pre);
                            assert(events_extended(pre.events@, self.events@));
                            assert(popcount(self.grid@[ti]@) == 0);
                            assert(popcount(self.cell(q.y as int, q.x as int)) == 0);
                            assert(self.contradicted()) by {
                                assert(0 <= ti < self.grid@.len() && popcount(
                                    (self.grid@[ti])@,
                                ) == 0);
                            }
                            if pre.all_consistent() {
                                assert(s1.grid@ == pre.grid@);
                                assert(pre.edge_ok(op.y as int, op.x as int, d as int));
                                assert(s1.edge_ok(op.y as int, op.x as int, d as int)) by {
                                    assert forall|j: int|
                                        #[trigger] s1.has(
                                            s1.nbr_y(op.y as int, d as int),
                                            s1.nbr_x(op.x as int, d as int),
                                            j,
                                        ) implies s1.projects(op.y as int, op.x as int, d as int, j) by {
                                        assert(pre.has(
                                            pre.nbr_y(op.y as int, d as int),
                                            pre.nbr_x(op.x as int, d as int),
                                            j,
                                        ));
                                        assert(pre.projects(op.y as int, op.x as int, d as int, j));
                                        let t = choose|t: int|
                                            #[trigger] pre.has(op.y as int, op.x as int, t)
                                                && pre.allows(t, d as int, j);
                                        assert(s1.has(op.y as int, op.x as int, t));
                                    }
                                }
                                assert forall|t: int|
                                    0 <= t < self.grid@[ti]@.len() implies (
                                #[trigger] self.grid@[ti]@[t]) == s1.grid@[ti]@[t] by {
                                    if s1.grid@[ti]@[t] {
                                        assert(s1.has(q.y as int, q.x as int, t));
                                        assert(s1.has(
                                            s1.nbr_y(op.y as int, d as int),
                                            s1.nbr_x(op.x as int, d as int),
                                            t,
                                        ));
                                        assert(s1.projects(op.y as int, op.x as int, d as int, t));
                                    }
                                }
                                assert(self.grid@[ti]@ =~= s1.grid@[ti]@);
                                assert(popcount(self.grid@[ti]@) == popcount(s1.grid@[ti]@));
                                assert(false);
                            }
                        }
                        return Err(ContradictionError { p: q });
                    },
                }
                d += 1;
            }
        }
        proof {
            assert forall|y: int, x: int, d: int|
                self.valid(y, x) && 0 <= d < 4 && self.edge_active(y, d) && (pre.edge_ok(y, x, d)
                    || seeded(wl0, y, x) || self.cell(y, x) != pre.cell(y, x)) implies #[trigger] self.edge_ok(
                y,
                x,
                d,
            ) by {
                assert(!seeded(wl@, y, x));
            }
            assert forall|y: int, x: int|
                self.valid(y, x) && appended_contains(
                    pre.events@.len() as int,
                    self.events@,
                    y,
                    x,
                ) implies (popcount(pre.cell(y, x)) >= 2 && popcount(#[trigger] self.cell(y, x))
                == 1) by {
                let i = choose|i: int|
                    pre.events@.len() <= i < self.events@.len() && (
                    #[trigger] self.events@[i]).p.y as int == y && self.events@[i].p.x as int == x;
                assert(popcount(self.cell(y, x)) == 1);
            }
        }
        Ok(())
    }

    /// The arc-consistency closure seeded at `p`: after an `Ok` return,
    /// every active edge that was consistent before, starts at `p`, or
    /// starts at a cell that shrank during the call, is consistent; in
    /// particular a grid that was consistent except at `p` is fully
    /// consistent afterwards. On a grid that was already fully
    /// consistent the call changes nothing.
    pub fn projectState(&mut self, p: &Point) -> (r: Result<(), ContradictionError>)
        requires
            old(self).wf(),
            old(self).valid(p.y as int, p.x as int),
        ensures
            final(self).same_shape(*old(self)),
            final(self).shrunk_from(*old(self)),
            final(self).rng == old(self).rng,
            events_extended(old(self).events@, final(self).events@),
            sum_cards(final(self).grid@) <= sum_cards(old(self).grid@),
            old(self).all_consistent() ==> (r is Ok && final(self).grid@ == old(self).grid@
                && final(self).entropy@ == old(self).entropy@ && final(self).events@ == old(
                self,
            ).events@),
            r is Ok ==> final(self).wf(),
            r is Ok ==> forall|y: int, x: int, d: int|
                #![trigger final(self).edge_ok(y, x, d)]
                final(self).valid(y, x) && 0 <= d < 4 && final(self).edge_active(y, d) && (old(
                    self,
                ).edge_ok(y, x, d) || (y == p.y as int && x == p.x as int) || final(self).cell(
                    y,
                    x,
                ) != old(self).cell(y, x)) ==> final(self).edge_ok(y, x, d),
            (r is Ok && old(self).consistent_except(p.y as int, p.x as int))
                ==> final(self).all_consistent(),
            r is Ok ==> forall|y: int, x: int|
                #![trigger final(self).cell(y, x)]
                final(self).valid(y, x) ==> ((popcount(old(self).cell(y, x)) >= 2 && popcount(
                    final(self).cell(y, x),
                ) == 1) <==> appended_contains(
                    old(self).events@.len() as int,
                    final(self).events@,
                    y,
                    x,
                )),
            r is Ok ==> forall|i: int|
                old(self).events@.len() <= i < final(self).events@.len() ==> popcount(
                    final(self).cell(
                        (#[trigger] final(self).events@[i]).p.y as int,
                        final(self).events@[i].p.x as int,
                    ),
                ) == 1 && final(self).events@[i].tile as int == rank_index(
                    final(self).cell(
                        final(self).events@[i].p.y as int,
                        final(self).events@[i].p.x as int,
                    ),
                    0,
                ),
            r is Ok ==> forall|i: int, j: int|
                old(self).events@.len() <= i < j < final(self).events@.len() ==> (
                #[trigger] final(self).events@[i]).p != (#[trigger] final(self).events@[j]).p,
            match r {
                Ok(_) => true,
                Err(e) => {
                    &&& final(self).contradicted()
                    &&& final(self).valid(e.p.y as int, e.p.x as int)
                    &&& popcount(final(self).cell(e.p.y as int, e.p.x as int)) == 0
                },
            },
    {
        let ghost pre = *self;
        let mut wl: Vec<Point> = Vec::new();
        wl.push(*p);
        let ghost wl0 = wl@;
        proof {
            assert(wl0[0] == *p);
            assert forall|y: int, x: int| #[trigger] seeded(wl0, y, x) implies (y == p.y as int && x
                == p.x as int) by {
                let i = choose|i: int|
                    0 <= i < wl0.len() && (#[trigger] wl0[i]).y as int == y && wl0[i].x as int == x;
                assert(i == 0);
            }
            assert(seeded(wl0, p.y as int, p.x as int));
        }
        let r = self.propagate(wl);
        proof {
            if r is Ok {
                assert forall|y: int, x: int, d: int|
                    self.valid(y, x) && 0 <= d < 4 && self.edge_active(y, d) && (pre.edge_ok(
                        y,
                        x,
                        d,
                    ) || (y == p.y as int && x == p.x as int) || self.cell(y, x) != pre.cell(
                        y,
                        x,
                    )) implies #[trigger] self.edge_ok(y, x, d) by {
                    if y == p.y as int && x == p.x as int {
                        assert(seeded(wl0, y, x));
                    }
                }
                if pre.consistent_except(p.y as int, p.x as int) {
                    assert forall|y: int, x: int, d: int|
                        self.valid(y, x) && 0 <= d < 4 && self.edge_active(y, d) implies #[trigger] self.edge_ok(
                        y,
                        x,
                        d,
                    ) by {
                        if y == p.y as int && x == p.x as int {
                            assert(seeded(wl0, y, x));
                        } else {
                            assert(pre.edge_ok(y, x, d));
                        }
                    }
                }
            }
        }
        r
    }

    /// The next cell to collapse: one with the fewest remaining
    /// candidates among all cells that still hold two or more, the
    /// lowest coordinate among equals. The picked cell is reserved in
    /// entropy bucket 1 at once, so it cannot be picked twice. `None`
    /// means no cell is superposed: the grid is fully resolved (or
    /// holds a contradiction).
    pub fn getLowestEntropy(&mut self) -> (r: Option<Point>)
        requires
            old(self).wf(),
        ensures
            match r {
                None => {
                    &&& *final(self) == *old(self)
                    &&& forall|c: int|
                        0 <= c < old(self).grid@.len() ==> popcount(
                            (#[trigger] old(self).grid@[c])@,
                        ) <= 1
                },
                Some(p) => {
                    &&& final(self).wf_reserved(p.y as int, p.x as int)
                    &&& final(self).grid@ == old(self).grid@
                    &&& final(self).entropy@ == old(self).entropy@.update(
                        old(self).index_of(p.y as int, p.x as int),
                        1usize,
                    )
                    &&& final(self).events == old(self).events
                    &&& final(self).rng == old(self).rng
                    &&& final(self).h == old(self).h
                    &&& final(self).w == old(self).w
                    &&& final(self).top == old(self).top
                    &&& final(self).seam_broken == old(self).seam_broken
                    &&& final(self).states == old(self).states
                    &&& popcount(old(self).cell(p.y as int, p.x as int)) >= 2
                    &&& forall|y: int, x: int|
                        old(self).valid(y, x) && popcount(#[trigger] old(self).cell(y, x)) >= 2
                            ==> popcount(old(self).cell(p.y as int, p.x as int)) <= popcount(
                            old(self).cell(y, x),
                        )
                    &&& forall|y: int, x: int|
                        old(self).valid(y, x) && old(self).index_of(y, x) < old(self).index_of(
                            p.y as int,
                            p.x as int,
                        ) && popcount(#[trigger] old(self).cell(y, x)) >= 2 ==> popcount(
                            old(self).cell(p.y as int, p.x as int),
                        ) < popcount(old(self).cell(y, x))
                },
            },
    {
        let ghost pre = *self;
        match self.entropy.pick_lowest_entropy() {
            None => {
                proof {
                    assert forall|c: int|
                        0 <= c < pre.grid@.len() implies popcount((#[trigger] pre.grid@[c])@)
                        <= 1 by {
                        assert(pre.entropy@[c] <= 1);
                    }
                }
                None
            },
            Some(c) => {
                let y = c / self.w;
                let x = c % self.w;
                proof {
                    lemma_grid_index_decomp(pre.h as int, pre.w as int, c as int);
                    assert(pre.index_of(y as int, x as int) == c as int);
                    assert(popcount(pre.cell(y as int, x as int)) >= 2);
                    assert forall|yy: int, xx: int|
                        pre.valid(yy, xx) && popcount(#[trigger] pre.cell(yy, xx)) >= 2 implies popcount(
                        pre.cell(y as int, x as int),
                    ) <= popcount(pre.cell(yy, xx)) by {
                        lemma_grid_index(pre.h as int, pre.w as int, yy, xx);
                        assert(pre.entropy@[pre.index_of(yy, xx)] >= 2);
                    }
                    assert forall|yy: int, xx: int|
                        pre.valid(yy, xx) && pre.index_of(yy, xx) < c as int && popcount(
                            #[trigger] pre.cell(yy, xx),
                        ) >= 2 implies popcount(pre.cell(y as int, x as int)) < popcount(
                        pre.cell(yy, xx),
                    ) by {
                        lemma_grid_index(pre.h as int, pre.w as int, yy, xx);
                        assert(pre.entropy@[pre.index_of(yy, xx)] >= 2);
                    }
                }
                Some(Point { y, x })
            },
        }
    }

    /// Collapse the superposed cell at `p` to one concrete tile (the
    /// seeded pseudo-random choice), emit its "resolved" event, and
    /// propagate the new constraint to a fixpoint.
    pub fn collapseAt(&mut self, p: &Point) -> (r: Result<(), ContradictionError>)
        requires
            old(self).collapse_ready(p.y as int, p.x as int),
        ensures
            final(self).same_shape(*old(self)),
            final(self).shrunk_from(*old(self)),
            final(self).rng == lcg_next(old(self).rng),
            events_extended(old(self).events@, final(self).events@),
            sum_cards(final(self).grid@) < sum_cards(old(self).grid@),
            final(self).events@.len() > old(self).events@.len(),
            final(self).events@[old(self).events@.len() as int].p == *p,
            final(self).events@[old(self).events@.len() as int].tile as int == old(
                self,
            ).collapse_choice(p.y as int, p.x as int),
            r is Ok ==> final(self).wf(),
            r is Ok ==> popcount(final(self).cell(p.y as int, p.x as int)) == 1
                && final(self).cell(p.y as int, p.x as int)[old(self).collapse_choice(
                p.y as int,
                p.x as int,
            )],
            r is Ok ==> forall|y: int, x: int, d: int|
                #![trigger final(self).edge_ok(y, x, d)]
                final(self).valid(y, x) && 0 <= d < 4 && final(self).edge_active(y, d) && (old(
                    self,
                ).edge_ok(y, x, d) || (y == p.y as int && x == p.x as int) || final(self).cell(
                    y,
                    x,
                ) != old(self).cell(y, x)) ==> final(self).edge_ok(y, x, d),
            (r is Ok && old(self).consistent_except(p.y as int, p.x as int))
                ==> final(self).all_consistent(),
            r is Ok ==> forall|y: int, x: int|
                #![trigger final(self).cell(y, x)]
                final(self).valid(y, x) ==> ((popcount(old(self).cell(y, x)) >= 2 && popcount(
                    final(self).cell(y, x),
                ) == 1) <==> appended_contains(
                    old(self).events@.len() as int,
                    final(self).events@,
                    y,
                    x,
                )),
            r is Ok ==> forall|i: int|
                old(self).events@.len() <= i < final(self).events@.len() ==> popcount(
                    final(self).cell(
                        (#[trigger] final(self).events@[i]).p.y as int,
                        final(self).events@[i].p.x as int,
                    ),
                ) == 1 && final(self).events@[i].tile as int == rank_index(
                    final(self).cell(
                        final(self).events@[i].p.y as int,
                        final(self).events@[i].p.x as int,
                    ),
                    0,
                ),
            r is Ok ==> forall|i: int, j: int|
                old(self).events@.len() <= i < j < final(self).events@.len() ==> (
                #[trigger] final(self).events@[i]).p != (#[trigger] final(self).events@[j]).p,
            match r {
                Ok(_) => true,
                Err(e) => {
                    &&& final(self).contradicted()
                    &&& final(self).valid(e.p.y as int, e.p.x as int)
                    &&& popcount(final(self).cell(e.p.y as int, e.p.x as int)) == 0
                },
            },
    {
        let ghost pre = *self;
        let ghost py: int = p.y as int;
        let ghost px: int = p.x as int;
        let ghost n0: int = pre.events@.len() as int;
        let i = self.idx(p.y, p.x);
        self.rng = ((self.rng % 0x7fff_ffff) * 48271) % 0x7fff_ffff;
        proof {
            assert(self.rng == lcg_next(pre.rng));
        }
        let cnt = self.grid[i].count();
        let rank64 = self.rng % (cnt as u64);
        let rank = rank64 as usize;
        let ghost chosen: int = pre.collapse_choice(py, px);
        proof {
            assert(rank64 < cnt as u64);
            assert(rank as int == rank64 as int);
            let pc: int = popcount(pre.cell(py, px)) as int;
            assert(cnt as int == pc);
            assert(rank as int == (lcg_next(pre.rng) as int) % pc);
            assert(0 <= (rank as int) && (rank as int) < pc);
            assert((rank as int) % pc == rank as int) by (nonlinear_arith)
                requires
                    0 <= (rank as int) && (rank as int) < pc,
            ;
            assert((rank as nat) % popcount(pre.cell(py, px)) == (lcg_next(pre.rng) as nat)
                % popcount(pre.cell(py, px)));
            lemma_rank_index_props(
                pre.cell(py, px),
                (lcg_next(pre.rng) as nat) % popcount(pre.cell(py, px)),
            );
            assert(0 <= chosen < pre.num_states());
            assert(pre.cell(py, px)[chosen]);
        }
        let slot = &mut self.grid[i];
        slot.collapse(rank);
        let tile = self.grid[i].state();
        proof {
            assert forall|t: int|
                0 <= t < self.grid@[i as int]@.len() implies ((#[trigger] self.grid@[i as int]@[t])
                <==> t == chosen) by {}
            lemma_rank_index_props(self.grid@[i as int]@, 0);
            assert(tile as int == chosen);
        }
        self.events.push(ResolvedEvent { p: *p, tile });
        let cur = self.entropy.recorded[i];
        self.entropy.record(i, cur, 1);
        let ghost mid = *self;
        proof {
            assert(mid.events@ =~= pre.events@.push(ResolvedEvent { p: *p, tile }));
            assert(mid.events@[n0].p == *p && mid.events@[n0].tile == tile);
            // the collapsed cell shrank to a member of its old set
            assert forall|c: int, t: int|
                0 <= c < mid.grid@.len() && 0 <= t < mid.grid@[c]@.len() && (
                #[trigger] mid.grid@[c]@[t]) implies pre.grid@[c]@[t] by {
                if c == i as int {
                    assert(t == chosen);
                }
            }
            assert(mid.same_shape(pre));
            // everything is in sync again
            assert forall|c: int|
                0 <= c < mid.grid@.len() implies (#[trigger] mid.entropy@[c]) == popcount(
                mid.grid@[c]@,
            ) by {
                if c != i as int {
                    assert(mid.grid@[c] == pre.grid@[c]);
                    assert(pre.entropy@[c] == popcount(pre.grid@[c]@));
                }
            }
            assert(mid.wf());
            lemma_sum_cards_update(pre.grid@, i as int, mid.grid@[i as int]);
            assert(sum_cards(mid.grid@) < sum_cards(pre.grid@));
        }
        let r = self.projectState(p);
        proof {
            lemma_shrunk_trans(*self, mid, pre);
            assert(events_extended(pre.events@, self.events@)) by {
                assert forall|ii: int|
                    0 <= ii < pre.events@.len() implies (#[trigger] self.events@[ii])
                    == pre.events@[ii] by {
                    assert(self.events@[ii] == mid.events@[ii]);
                }
            }
            assert(self.events@[n0] == mid.events@[n0]);
            if r is Ok {
                // the collapsed cell stayed resolved to the same tile
                lemma_grid_index(pre.h as int, pre.w as int, py, px);
                lemma_popcount_subset(self.grid@[i as int]@, mid.grid@[i as int]@);
                assert(popcount(self.cell(py, px)) == 1);
                lemma_popcount_subset_eq(self.grid@[i as int]@, mid.grid@[i as int]@);
                assert(self.cell(py, px)[chosen]);
                // arc-consistency growth over the whole call
                assert forall|y: int, x: int, d: int|
                    self.valid(y, x) && 0 <= d < 4 && self.edge_active(y, d) && (pre.edge_ok(
                        y,
                        x,
                        d,
                    ) || (y == py && x == px) || self.cell(y, x) != pre.cell(y, x)) implies #[trigger] self.edge_ok(
                    y,
                    x,
                    d,
                ) by {
                    lemma_grid_index(pre.h as int, pre.w as int, y, x);
                    if y == py && x == px {
                    } else {
                        assert(pre.index_of(y, x) != i as int) by {
                            if pre.index_of(y, x) == i as int {
                                lemma_grid_index_inj(pre.w as int, y, x, py, px);
                            }
                        }
                        assert(mid.grid@[pre.index_of(y, x)] == pre.grid@[pre.index_of(y, x)]);
                        assert(mid.cell(y, x) == pre.cell(y, x));
                        if pre.edge_ok(y, x, d) {
                            lemma_edge_ok_preserved(pre, mid, y, x, d);
                            assert(mid.edge_ok(y, x, d));
                        }
                    }
                }
                if pre.consistent_except(py, px) {
                    assert(mid.consistent_except(py, px)) by {
                        assert forall|y: int, x: int, d: int|
                            mid.valid(y, x) && 0 <= d < 4 && mid.edge_active(y, d) && !(y == py && x
                                == px) implies #[trigger] mid.edge_ok(y, x, d) by {
                            lemma_grid_index(pre.h as int, pre.w as int, y, x);
                            assert(pre.edge_ok(y, x, d));
                            assert(pre.index_of(y, x) != i as int) by {
                                if pre.index_of(y, x) == i as int {
                                    lemma_grid_index_inj(pre.w as int, y, x, py, px);
                                }
                            }
                            assert(mid.grid@[pre.index_of(y, x)] == pre.grid@[pre.index_of(y, x)]);
                            assert(mid.cell(y, x) == pre.cell(y, x));
                            lemma_edge_ok_preserved(pre, mid, y, x, d);
                        }
                    }
                    assert(self.all_consistent());
                }
                // the notification stream saw exactly the transitions
                assert forall|y: int, x: int|
                    self.valid(y, x) implies ((popcount(pre.cell(y, x)) >= 2 && popcount(
                    #[trigger] self.cell(y, x),
                ) == 1) <==> appended_contains(n0, self.events@, y, x)) by {
                    lemma_grid_index(pre.h as int, pre.w as int, y, x);
                    if y == py && x == px {
                        assert(self.events@[n0].p.y as int == y && self.events@[n0].p.x as int
                            == x);
                        assert(appended_contains(n0, self.events@, y, x));
                        assert(popcount(pre.cell(y, x)) >= 2 && popcount(self.cell(y, x)) == 1);
                    } else {
                        assert(pre.index_of(y, x) != i as int) by {
                            if pre.index_of(y, x) == i as int {
                                lemma_grid_index_inj(pre.w as int, y, x, py, px);
                            }
                        }
                        assert(mid.grid@[pre.index_of(y, x)] == pre.grid@[pre.index_of(y, x)]);
                        assert(mid.cell(y, x) == pre.cell(y, x));
                        if appended_contains(n0, self.events@, y, x) {
                            let ii = choose|ii: int|
                                n0 <= ii < self.events@.len() && (
                                #[trigger] self.events@[ii]).p.y as int == y && self.events@[ii].p.x
                                    as int == x;
                            assert(ii != n0);
                            assert(appended_contains(n0 + 1, self.events@, y, x));
                            assert(popcount(mid.cell(y, x)) >= 2 && popcount(self.cell(y, x))
                                == 1);
                        }
                        if popcount(pre.cell(y, x)) >= 2 && popcount(self.cell(y, x)) == 1 {
                            assert(appended_contains(n0 + 1, self.events@, y, x));
                            let jj = choose|jj: int|
                                n0 + 1 <= jj < self.events@.len() && (
                                #[trigger] self.events@[jj]).p.y as int == y && self.events@[jj].p.x
                                    as int == x;
                            assert(appended_contains(n0, self.events@, y, x));
                        }
                    }
                }
                assert forall|ii: int|
                    n0 <= ii < self.events@.len() implies popcount(
                    self.cell(
                        (#[trigger] self.events@[ii]).p.y as int,
                        self.events@[ii].p.x as int,
                    ),
                ) == 1 && self.events@[ii].tile as int == rank_index(
                    self.cell(self.events@[ii].p.y as int, self.events@[ii].p.x as int),
                    0,
                ) by {
                    if ii == n0 {
                        assert(self.cell(py, px) == mid.cell(py, px));
                        lemma_rank_index_props(mid.cell(py, px), 0);
                    }
                }
                assert forall|ii: int, jj: int|
                    n0 <= ii < jj < self.events@.len() implies (#[trigger] self.events@[ii]).p != (
                #[trigger] self.events@[jj]).p by {
                    if ii == n0 {
                        let ev = self.events@[jj];
                        assert(self.valid(ev.p.y as int, ev.p.x as int));
                        if ev.p == *p {
                            assert(appended_contains(n0 + 1, self.events@, py, px));
                            assert(popcount(mid.cell(py, px)) >= 2);
                            assert(false);
                        }
                    }
                }
            }
        }
        r
    }

    /// One driver step, reported as a bare flag: `true` when a cell was
    /// collapsed and its constraints propagated without contradiction;
    /// `false` when the grid is fully resolved or the attempt failed.
    pub fn collapseMaybe(&mut self) -> (b: bool)
        requires
            old(self).wf(),
        ensures
            final(self).same_shape(*old(self)),
            final(self).shrunk_from(*old(self)),
            events_extended(old(self).events@, final(self).events@),
            b ==> final(self).wf() && sum_cards(final(self).grid@) < sum_cards(old(self).grid@),
            !b ==> ((*final(self) == *old(self) && forall|c: int|
                0 <= c < old(self).grid@.len() ==> popcount((#[trigger] old(self).grid@[c])@)
                    == 1) || final(self).contradicted()),
    {
        let ghost pre = *self;
        match self.getLowestEntropy() {
            None => {
                proof {
                    assert(forall|c: int|
                        0 <= c < pre.grid@.len() ==> popcount((#[trigger] pre.grid@[c])@) >= 1);
                }
                false
            },
            Some(p) => {
                let ghost mid = *self;
                proof {
                    assert(mid.collapse_ready(p.y as int, p.x as int));
                }
                let r = self.collapseAt(&p);
                proof {
                    assert(mid.same_shape(pre) && mid.shrunk_from(pre));
                    lemma_shrunk_trans(*self, mid, pre);
                    assert(events_extended(pre.events@, self.events@)) by {
                        assert forall|ii: int|
                            0 <= ii < pre.events@.len() implies (#[trigger] self.events@[ii])
                            == pre.events@[ii] by {
                            assert(self.events@[ii] == mid.events@[ii]);
                        }
                    }
                    assert(sum_cards(mid.grid@) == sum_cards(pre.grid@));
                }
                match r {
                    Ok(_) => true,
                    Err(_) => false,
                }
            },
        }
    }

    /// One driver step: pick the lowest-entropy cell, collapse it, and
    /// propagate; report whether a collapse happened, the grid was
    /// already fully resolved, or a contradiction ended the attempt.
    pub fn step(&mut self) -> (o: StepOutcome)
        requires
            old(self).wf(),
        ensures
            final(self).same_shape(*old(self)),
            final(self).shrunk_from(*old(self)),
            events_extended(old(self).events@, final(self).events@),
            o == StepOutcome::Collapsed ==> final(self).wf() && sum_cards(final(self).grid@)
                < sum_cards(old(self).grid@),
            o == StepOutcome::Done ==> *final(self) == *old(self) && forall|c: int|
                0 <= c < old(self).grid@.len() ==> popcount((#[trigger] old(self).grid@[c])@) == 1,
            o == StepOutcome::Contradiction ==> final(self).contradicted(),
    {
        let ghost pre = *self;
        match self.getLowestEntropy() {
            None => {
                proof {
                    assert(forall|c: int|
                        0 <= c < pre.grid@.len() ==> popcount((#[trigger] pre.grid@[c])@) >= 1);
                }
                StepOutcome::Done
            },
            Some(p) => {
                let ghost mid = *self;
                proof {
                    assert(mid.collapse_ready(p.y as int, p.x as int));
                }
                let r = self.collapseAt(&p);
                proof {
                    assert(mid.same_shape(pre) && mid.shrunk_from(pre));
                    lemma_shrunk_trans(*self, mid, pre);
                    assert(events_extended(pre.events@, self.events@)) by {
                        assert forall|ii: int|
                            0 <= ii < pre.events@.len() implies (#[trigger] self.events@[ii])
                            == pre.events@[ii] by {
                            assert(self.events@[ii] == mid.events@[ii]);
                        }
                    }
                    assert(sum_cards(mid.grid@) == sum_cards(pre.grid@));
                }
                match r {
                    Ok(_) => StepOutcome::Collapsed,
                    Err(_) => StepOutcome::Contradiction,
                }
            },
        }
    }

    /// Drive the generation to its end: collapse and propagate until
    /// every cell is resolved, or fail on the first contradiction. The
    /// total candidate count shrinks with every collapse, which bounds
    /// the run by one reduction step per cell and candidate. On
    /// success, exactly the cells that were still unresolved at the
    /// start have been notified, each exactly once, with its final
    /// tile.
    #[verifier::loop_isolation(false)]
    #[verifier::rlimit(100)]
    pub fn run_to_completion(&mut self) -> (r: Result<(), ContradictionError>)
        requires
            old(self).wf(),
        ensures
            final(self).same_shape(*old(self)),
            final(self).shrunk_from(*old(self)),
            events_extended(old(self).events@, final(self).events@),
            r is Ok ==> final(self).wf() && forall|c: int|
                0 <= c < final(self).grid@.len() ==> popcount((#[trigger] final(self).grid@[c])@)
                    == 1,
            r is Ok ==> forall|y: int, x: int|
                #![trigger final(self).cell(y, x)]
                final(self).valid(y, x) ==> ((popcount(old(self).cell(y, x)) >= 2 && popcount(
                    final(self).cell(y, x),
                ) == 1) <==> appended_contains(
                    old(self).events@.len() as int,
                    final(self).events@,
                    y,
                    x,
                )),
            r is Ok ==> forall|i: int|
                old(self).events@.len() <= i < final(self).events@.len() ==> popcount(
                    final(self).cell(
                        (#[trigger] final(self).events@[i]).p.y as int,
                        final(self).events@[i].p.x as int,
                    ),
                ) == 1 && final(self).events@[i].tile as int == rank_index(
                    final(self).cell(
                        final(self).events@[i].p.y as int,
                        final(self).events@[i].p.x as int,
                    ),
                    0,
                ),
            r is Ok ==> forall|i: int, j: int|
                old(self).events@.len() <= i < j < final(self).events@.len() ==> (
                #[trigger] final(self).events@[i]).p != (#[trigger] final(self).events@[j]).p,
            // consistency is never lost, and every cell that changed
            // satisfies its constraints
            r is Ok ==> forall|y: int, x: int, d: int|
                #![trigger final(self).edge_ok(y, x, d)]
                final(self).valid(y, x) && 0 <= d < 4 && final(self).edge_active(y, d) && (old(
                    self,
                ).edge_ok(y, x, d) || final(self).cell(y, x) != old(self).cell(y, x))
                    ==> final(self).edge_ok(y, x, d),
            // a run from full superposition that succeeds produces an
            // arc-consistent tiling
            (r is Ok && (forall|c: int|
                0 <= c < old(self).grid@.len() ==> popcount((#[trigger] old(self).grid@[c])@)
                    >= 2)) ==> final(self).all_consistent(),
            match r {
                Ok(_) => true,
                Err(e) => {
                    &&& final(self).contradicted()
                    &&& final(self).valid(e.p.y as int, e.p.x as int)
                    &&& popcount(final(self).cell(e.p.y as int, e.p.x as int)) == 0
                },
            },
    {
        let ghost pre = *self;
        let ghost n0: int = pre.events@.len() as int;
        loop
            invariant
                self.wf(),
                self.same_shape(pre),
                self.shrunk_from(pre),
                events_extended(pre.events@, self.events@),
                forall|y: int, x: int, d: int|
                    #![trigger self.edge_ok(y, x, d)]
                    self.valid(y, x) && 0 <= d < 4 && self.edge_active(y, d) && (pre.edge_ok(
                        y,
                        x,
                        d,
                    ) || self.cell(y, x) != pre.cell(y, x)) ==> self.edge_ok(y, x, d),
                forall|y: int, x: int|
                    #![trigger self.cell(y, x)]
                    self.valid(y, x) ==> ((popcount(pre.cell(y, x)) >= 2 && popcount(
                        self.cell(y, x),
                    ) == 1) <==> appended_contains(n0, self.events@, y, x)),
                forall|i: int|
                    n0 <= i < self.events@.len() ==> popcount(
                        self.cell(
                            (#[trigger] self.events@[i]).p.y as int,
                            self.events@[i].p.x as int,
                        ),
                    ) == 1 && self.events@[i].tile as int == rank_index(
                        self.cell(self.events@[i].p.y as int, self.events@[i].p.x as int),
                        0,
                    ) && popcount(
                        pre.cell(self.events@[i].p.y as int, self.events@[i].p.x as int),
                    ) >= 2,
                forall|i: int, j: int|
                    n0 <= i < j < self.events@.len() ==> (#[trigger] self.events@[i]).p != (
                    #[trigger] self.events@[j]).p,
            decreases sum_cards(self.grid@),
        {
            let ghost s_top = *self;
            match self.getLowestEntropy() {
                None => {
                    proof {
                        assert(forall|c: int|
                            0 <= c < s_top.grid@.len() ==> popcount(
                                (#[trigger] s_top.grid@[c])@,
                            ) >= 1);
                        if forall|c: int|
                            0 <= c < pre.grid@.len() ==> popcount((#[trigger] pre.grid@[c])@)
                                >= 2 {
                            assert forall|y: int, x: int, d: int|
                                self.valid(y, x) && 0 <= d < 4 && self.edge_active(
                                    y,
                                    d,
                                ) implies #[trigger] self.edge_ok(y, x, d) by {
                                lemma_grid_index(pre.h as int, pre.w as int, y, x);
                                let c = pre.index_of(y, x);
                                assert(popcount(pre.grid@[c]@) >= 2);
                                assert(popcount(self.grid@[c]@) <= 1);
                                assert(self.cell(y, x) != pre.cell(y, x)) by {
                                    if self.cell(y, x) == pre.cell(y, x) {
                                        assert(popcount(self.grid@[c]@) == popcount(
                                            pre.grid@[c]@,
                                        ));
                                    }
                                }
                            }
                        }
                    }
                    return Ok(());
                },
                Some(p) => {
                    let ghost s_mid = *self;
                    proof {
                        assert(s_mid.collapse_ready(p.y as int, p.x as int));
                    }
                    let r = self.collapseAt(&p);
                    proof {
                        assert(s_mid.same_shape(s_top) && s_mid.shrunk_from(s_top));
                        lemma_shrunk_trans(*self, s_mid, s_top);
                        lemma_shrunk_trans(*self, s_top, pre);
                        assert(events_extended(pre.events@, self.events@)) by {
                            assert forall|ii: int|
                                0 <= ii < pre.events@.len() implies (#[trigger] self.events@[ii])
                                == pre.events@[ii] by {
                                assert(self.events@[ii] == s_mid.events@[ii]);
                                assert(s_mid.events@[ii] == s_top.events@[ii]);
                            }
                        }
                        assert(sum_cards(s_mid.grid@) == sum_cards(s_top.grid@));
                        if r is Ok {
                            // consistency bookkeeping across the step
                            assert forall|y: int, x: int, d: int|
                                self.valid(y, x) && 0 <= d < 4 && self.edge_active(y, d) && (
                                pre.edge_ok(y, x, d) || self.cell(y, x) != pre.cell(
                                    y,
                                    x,
                                )) implies #[trigger] self.edge_ok(y, x, d) by {
                                lemma_grid_index(pre.h as int, pre.w as int, y, x);
                                assert(s_mid.cell(y, x) == s_top.cell(y, x));
                                let ny = s_top.nbr_y(y, d);
                                let nx = s_top.nbr_x(x, d);
                                lemma_grid_index(pre.h as int, pre.w as int, ny, nx);
                                assert(s_mid.cell(ny, nx) == s_top.cell(ny, nx));
                                if pre.edge_ok(y, x, d) {
                                    assert(s_top.edge_ok(y, x, d));
                                    lemma_edge_ok_same_cells(s_top, s_mid, y, x, d);
                                    assert(self.edge_ok(y, x, d));
                                } else {
                                    if self.cell(y, x) != s_mid.cell(y, x) {
                                        assert(self.edge_ok(y, x, d));
                                    } else {
                                        assert(s_top.cell(y, x) != pre.cell(y, x));
                                        assert(s_top.edge_ok(y, x, d));
                                        lemma_edge_ok_same_cells(s_top, s_mid, y, x, d);
                                        assert(self.edge_ok(y, x, d));
                                    }
                                }
                            }
                            // the cells of the notifications so far stay
                            // resolved, with the same single candidate
                            assert forall|ii: int|
                                n0 <= ii < s_top.events@.len() implies popcount(
                                self.cell(
                                    (#[trigger] self.events@[ii]).p.y as int,
                                    self.events@[ii].p.x as int,
                                ),
                            ) == 1 && self.events@[ii] == s_top.events@[ii] && self.cell(
                                self.events@[ii].p.y as int,
                                self.events@[ii].p.x as int,
                            ) == s_top.cell(
                                self.events@[ii].p.y as int,
                                self.events@[ii].p.x as int,
                            ) by {
                                assert(self.events@[ii] == s_top.events@[ii]);
                                let ev = s_top.events@[ii];
                                let yy = ev.p.y as int;
                                let xx = ev.p.x as int;
                                assert(s_top.valid(yy, xx));
                                lemma_grid_index(pre.h as int, pre.w as int, yy, xx);
                                let c = s_top.index_of(yy, xx);
                                assert(popcount(s_top.cell(yy, xx)) == 1);
                                lemma_popcount_subset(self.grid@[c]@, s_top.grid@[c]@);
                                assert(popcount(self.grid@[c]@) >= 1);
                                lemma_popcount_subset_eq(self.grid@[c]@, s_top.grid@[c]@);
                            }
                            // the transitions of the whole run so far are
                            // exactly the notifications so far
                            assert forall|y: int, x: int|
                                self.valid(y, x) implies ((popcount(pre.cell(y, x)) >= 2
                                && popcount(#[trigger] self.cell(y, x)) == 1)
                                <==> appended_contains(n0, self.events@, y, x)) by {
                                lemma_grid_index(pre.h as int, pre.w as int, y, x);
                                let c = s_top.index_of(y, x);
                                lemma_popcount_subset(self.grid@[c]@, s_top.grid@[c]@);
                                lemma_popcount_subset(s_top.grid@[c]@, pre.grid@[c]@);
                                assert(popcount(self.grid@[c]@) >= 1);
                                if popcount(pre.cell(y, x)) >= 2 && popcount(self.cell(y, x))
                                    == 1 {
                                    if popcount(s_top.cell(y, x)) == 1 {
                                        assert(appended_contains(n0, s_top.events@, y, x));
                                        let ii = choose|ii: int|
                                            n0 <= ii < s_top.events@.len() && (
                                            #[trigger] s_top.events@[ii]).p.y as int == y
                                                && s_top.events@[ii].p.x as int == x;
                                        assert(self.events@[ii] == s_top.events@[ii]);
                                        assert(appended_contains(n0, self.events@, y, x));
                                    } else {
                                        assert(popcount(s_mid.cell(y, x)) >= 2);
                                        assert(appended_contains(
                                            s_top.events@.len() as int,
                                            self.events@,
                                            y,
                                            x,
                                        ));
                                        let ii = choose|ii: int|
                                            s_top.events@.len() <= ii < self.events@.len() && (
                                            #[trigger] self.events@[ii]).p.y as int == y
                                                && self.events@[ii].p.x as int == x;
                                        assert(appended_contains(n0, self.events@, y, x));
                                    }
                                }
                                if appended_contains(n0, self.events@, y, x) {
                                    let ii = choose|ii: int|
                                        n0 <= ii < self.events@.len() && (
                                        #[trigger] self.events@[ii]).p.y as int == y
                                            && self.events@[ii].p.x as int == x;
                                    if ii < s_top.events@.len() {
                                        assert(self.events@[ii] == s_top.events@[ii]);
                                        assert(appended_contains(n0, s_top.events@, y, x));
                                        assert(popcount(pre.cell(y, x)) >= 2 && popcount(
                                            s_top.cell(y, x),
                                        ) == 1);
                                        lemma_popcount_subset_eq(
                                            self.grid@[c]@,
                                            s_top.grid@[c]@,
                                        );
                                    } else {
                                        assert(appended_contains(
                                            s_top.events@.len() as int,
                                            self.events@,
                                            y,
                                            x,
                                        ));
                                        assert(popcount(s_mid.cell(y, x)) >= 2 && popcount(
                                            self.cell(y, x),
                                        ) == 1);
                                        assert(popcount(pre.cell(y, x)) >= 2);
                                    }
                                }
                            }
                            // each notification still names its cell's
                            // single candidate, and no cell is named twice
                            assert forall|ii: int|
                                n0 <= ii < self.events@.len() implies popcount(
                                self.cell(
                                    (#[trigger] self.events@[ii]).p.y as int,
                                    self.events@[ii].p.x as int,
                                ),
                            ) == 1 && self.events@[ii].tile as int == rank_index(
                                self.cell(
                                    self.events@[ii].p.y as int,
                                    self.events@[ii].p.x as int,
                                ),
                                0,
                            ) && popcount(
                                pre.cell(self.events@[ii].p.y as int, self.events@[ii].p.x as int),
                            ) >= 2 by {
                                let ev = self.events@[ii];
                                let yy = ev.p.y as int;
                                let xx = ev.p.x as int;
                                lemma_grid_index(pre.h as int, pre.w as int, yy, xx);
                                let c = s_top.index_of(yy, xx);
                                if ii < s_top.events@.len() {
                                    assert(self.events@[ii] == s_top.events@[ii]);
                                    assert(self.cell(yy, xx) == s_top.cell(yy, xx));
                                } else {
                                    assert(appended_contains(
                                        s_top.events@.len() as int,
                                        self.events@,
                                        yy,
                                        xx,
                                    ));
                                    assert(popcount(s_mid.cell(yy, xx)) >= 2);
                                    lemma_popcount_subset(s_top.grid@[c]@, pre.grid@[c]@);
                                }
                            }
                            assert forall|ii: int, jj: int|
                                n0 <= ii < jj < self.events@.len() implies (
                            #[trigger] self.events@[ii]).p != (#[trigger] self.events@[jj]).p by {
                                if jj < s_top.events@.len() {
                                    assert(self.events@[ii] == s_top.events@[ii]);
                                    assert(self.events@[jj] == s_top.events@[jj]);
                                } else if ii >= s_top.events@.len() {
                                } else {
                                    assert(self.events@[ii] == s_top.events@[ii]);
                                    let pi = s_top.events@[ii].p;
                                    let pj = self.events@[jj].p;
                                    if pi == pj {
                                        let yy = pj.y as int;
                                        let xx = pj.x as int;
                                        assert(popcount(s_top.cell(yy, xx)) == 1);
                                        assert(appended_contains(
                                            s_top.events@.len() as int,
                                            self.events@,
                                            yy,
                                            xx,
                                        ));
                                        assert(popcount(s_mid.cell(yy, xx)) >= 2);
                                        assert(false);
                                    }
                                }
                            }
                        }
                    }
                    match r {
                        Ok(_) => {},
                        Err(e) => {
                            return Err(e);
                        },
                    }
                },
            }
        }
    }

    /// Recycle the edge row for scrolling generation: move the top
    /// pointer up one row (wrapping), reset every cell of that row to
    /// full superposition (back into the top entropy bucket), and
    /// re-establish consistency by propagating from the adjacent rows
    /// (only the still-resolved row below when the seam is broken, both
    /// vertical neighbors on the full torus). A grid that was arc
    /// consistent before is arc consistent again afterwards.
    #[verifier::loop_isolation(false)]
    #[verifier::rlimit(100)]
    pub fn resetrow(&mut self) -> (r: Result<(), ContradictionError>)
        requires
            old(self).wf(),
        ensures
            final(self).h == old(self).h,
            final(self).w == old(self).w,
            final(self).seam_broken == old(self).seam_broken,
            final(self).states == old(self).states,
            final(self).rng == old(self).rng,
            final(self).grid@.len() == old(self).grid@.len(),
            final(self).top as int == prev_wrap(old(self).top as int, old(self).h as int),
            events_extended(old(self).events@, final(self).events@),
            forall|y: int, x: int, t: int|
                (final(self).valid(y, x) && y != final(self).top as int && #[trigger] final(self).has(
                    y,
                    x,
                    t,
                )) ==> old(self).has(y, x, t),
            r is Ok ==> final(self).wf(),
            (r is Ok && old(self).all_consistent()) ==> final(self).all_consistent(),
            match r {
                Ok(_) => true,
                Err(e) => {
                    &&& final(self).contradicted()
                    &&& final(self).valid(e.p.y as int, e.p.x as int)
                    &&& popcount(final(self).cell(e.p.y as int, e.p.x as int)) == 0
                },
            },
    {
        let ghost pre = *self;
        self.top = if self.top == 0 {
            self.h - 1
        } else {
            self.top - 1
        };
        let row = self.top;
        let k = self.states.len();
        let ghost base: int = row as int * pre.w as int;
        let mut x: usize = 0;
        while x < self.w
            invariant
                x <= self.w,
                self.h == pre.h,
                self.w == pre.w,
                self.states == pre.states,
                self.seam_broken == pre.seam_broken,
                self.rng == pre.rng,
                self.events == pre.events,
                self.top == row,
                row as int == prev_wrap(pre.top as int, pre.h as int),
                row < self.h,
                k == self.states@.len(),
                self.grid@.len() == pre.grid@.len(),
                self.entropy@.len() == pre.entropy@.len(),
                self.wf(),
                forall|c: int|
                    0 <= c < self.grid@.len() && !(base <= c < base + x) ==> (
                    #[trigger] self.grid@[c]) == pre.grid@[c] && self.entropy@[c]
                        == pre.entropy@[c],
                forall|c: int|
                    base <= c < base + x ==> popcount((#[trigger] self.grid@[c])@) == k && (forall|
                        t: int,
                    |
                        0 <= t < k ==> self.grid@[c]@[t]),
            decreases self.w - x,
        {
            proof {
                lemma_grid_index(self.h as int, self.w as int, row as int, x as int);
            }
            let i = self.idx(row, x);
            proof {
                assert(i as int == base + x);
            }
            let ghost sb = *self;
            let oldc = self.grid[i].count();
            let full = SuperState::full(k);
            self.grid.set(i, full);
            self.entropy.record(i, oldc, k);
            proof {
                assert forall|c: int|
                    0 <= c < self.grid@.len() implies (#[trigger] self.entropy@[c]) == popcount(
                    self.grid@[c]@,
                ) by {
                    if c != i as int {
                        assert(self.grid@[c] == sb.grid@[c]);
                        assert(sb.entropy@[c] == popcount(sb.grid@[c]@));
                    }
                }
                assert(self.wf());
            }
            x += 1;
        }
        let ghost s1 = *self;
        let below_y = if row + 1 == self.h {
            0
        } else {
            row + 1
        };
        let above_y = if row == 0 {
            self.h - 1
        } else {
            row - 1
        };
        proof {
            assert(below_y as int == next_wrap(row as int, pre.h as int));
            assert(above_y as int == prev_wrap(row as int, pre.h as int));
            assert(pre.top as int == next_wrap(row as int, pre.h as int));
        }
        let mut seeds: Vec<Point> = Vec::new();
        let mut x2: usize = 0;
        while x2 < self.w
            invariant
                x2 <= self.w,
                *self == s1,
                forall|i: int|
                    0 <= i < seeds@.len() ==> self.valid(
                        (#[trigger] seeds@[i]).y as int,
                        seeds@[i].x as int,
                    ),
                forall|xx: int| 0 <= xx < x2 ==> #[trigger] seeded(seeds@, below_y as int, xx),
                forall|xx: int| 0 <= xx < x2 ==> #[trigger] seeded(seeds@, row as int, xx),
                forall|xx: int|
                    0 <= xx < x2 && !self.seam_broken ==> #[trigger] seeded(
                        seeds@,
                        above_y as int,
                        xx,
                    ),
            decreases self.w - x2,
        {
            let ghost w0 = seeds@;
            seeds.push(Point { y: below_y, x: x2 });
            seeds.push(Point { y: row, x: x2 });
            if !self.seam_broken {
                seeds.push(Point { y: above_y, x: x2 });
            }
            proof {
                assert forall|i: int| 0 <= i < w0.len() implies (#[trigger] seeds@[i]) == w0[i] by {}
                assert forall|yy: int, xx: int| #[trigger] seeded(w0, yy, xx) implies seeded(
                    seeds@,
                    yy,
                    xx,
                ) by {
                    let i = choose|i: int|
                        0 <= i < w0.len() && (#[trigger] w0[i]).y as int == yy && w0[i].x as int
                            == xx;
                    assert(seeds@[i] == w0[i]);
                }
                assert(seeds@[w0.len() as int] == (Point { y: below_y, x: x2 }));
                assert(seeded(seeds@, below_y as int, x2 as int));
                assert(seeds@[w0.len() as int + 1] == (Point { y: row, x: x2 }));
                assert(seeded(seeds@, row as int, x2 as int));
                if !self.seam_broken {
                    assert(seeds@[w0.len() as int + 2] == (Point { y: above_y, x: x2 }));
                    assert(seeded(seeds@, above_y as int, x2 as int));
                }
                assert forall|xx: int| 0 <= xx < x2 implies #[trigger] seeded(
                    seeds@,
                    below_y as int,
                    xx,
                ) by {
                    assert(seeded(w0, below_y as int, xx));
                }
                assert forall|xx: int| 0 <= xx < x2 implies #[trigger] seeded(
                    seeds@,
                    row as int,
                    xx,
                ) by {
                    assert(seeded(w0, row as int, xx));
                }
                assert forall|xx: int|
                    0 <= xx < x2 && !self.seam_broken implies #[trigger] seeded(
                    seeds@,
                    above_y as int,
                    xx,
                ) by {
                    assert(seeded(w0, above_y as int, xx));
                }
            }
            x2 += 1;
        }
        let ghost sd = seeds@;
        let r = self.propagate(seeds);
        proof {
            // the cells outside the recycled row only shrank
            assert forall|y: int, x: int, t: int|
                self.valid(y, x) && y != self.top as int && #[trigger] self.has(y, x, t) implies pre.has(
                y,
                x,
                t,
            ) by {
                lemma_grid_index(pre.h as int, pre.w as int, y, x);
                let c = s1.index_of(y, x);
                assert(s1.grid@[c]@[t]);
                assert(!(base <= c < base + pre.w)) by {
                    if base <= c < base + pre.w {
                        lemma_index_row(pre.w as int, row as int, y, x);
                    }
                }
                assert(s1.grid@[c] == pre.grid@[c]);
            }
            assert(events_extended(pre.events@, self.events@)) by {
                assert forall|ii: int|
                    0 <= ii < pre.events@.len() implies (#[trigger] self.events@[ii])
                    == pre.events@[ii] by {
                    assert(self.events@[ii] == s1.events@[ii]);
                }
            }
            if r is Ok && pre.all_consistent() {
                assert forall|y: int, x: int, d: int|
                    self.valid(y, x) && 0 <= d < 4 && self.edge_active(y, d) implies #[trigger] self.edge_ok(
                    y,
                    x,
                    d,
                ) by {
                    if y == row as int || y == below_y as int || (!pre.seam_broken && y == above_y
                        as int) {
                        assert(seeded(sd, below_y as int, x));
                        assert(seeded(sd, row as int, x));
                        if !pre.seam_broken {
                            assert(seeded(sd, above_y as int, x));
                        }
                        assert(seeded(sd, y, x));
                        assert(self.edge_ok(y, x, d));
                    } else {
                        // the edge does not touch the recycled row and was
                        // active before the seam moved
                        let ny = s1.nbr_y(y, d);
                        let nx = s1.nbr_x(x, d);
                        assert(ny != row as int && pre.edge_active(y, d));
                        assert(pre.edge_ok(y, x, d));
                        lemma_grid_index(pre.h as int, pre.w as int, y, x);
                        lemma_grid_index(pre.h as int, pre.w as int, ny, nx);
                        let cs = s1.index_of(y, x);
                        let ct = s1.index_of(ny, nx);
                        assert(!(base <= cs < base + pre.w)) by {
                            if base <= cs < base + pre.w {
                                lemma_index_row(pre.w as int, row as int, y, x);
                            }
                        }
                        assert(!(base <= ct < base + pre.w)) by {
                            if base <= ct < base + pre.w {
                                lemma_index_row(pre.w as int, row as int, ny, nx);
                            }
                        }
                        assert(s1.grid@[cs] == pre.grid@[cs]);
                        assert(s1.grid@[ct] == pre.grid@[ct]);
                        assert(s1.cell(y, x) == pre.cell(y, x));
                        assert(s1.cell(ny, nx) == pre.cell(pre.nbr_y(y, d), pre.nbr_x(x, d)));
                        lemma_edge_ok_same_cells(pre, s1, y, x, d);
                        assert(self.edge_ok(y, x, d));
                    }
                }
            }
        }
        r
    }

    /// Recycle the current edge row: the scrolling entry point.
    pub fn recycle_edge_row(&mut self) -> (r: Result<(), ContradictionError>)
        requires
            old(self).wf(),
        ensures
            final(self).h == old(self).h,
            final(self).w == old(self).w,
            final(self).seam_broken == old(self).seam_broken,
            final(self).states == old(self).states,
            final(self).rng == old(self).rng,
            final(self).grid@.len() == old(self).grid@.len(),
            final(self).top as int == prev_wrap(old(self).top as int, old(self).h as int),
            events_extended(old(self).events@, final(self).events@),
            forall|y: int, x: int, t: int|
                (final(self).valid(y, x) && y != final(self).top as int && #[trigger] final(self).has(
                    y,
                    x,
                    t,
                )) ==> old(self).has(y, x, t),
            r is Ok ==> final(self).wf(),
            (r is Ok && old(self).all_consistent()) ==> final(self).all_consistent(),
            match r {
                Ok(_) => true,
                Err(e) => {
                    &&& final(self).contradicted()
                    &&& final(self).valid(e.p.y as int, e.p.x as int)
                    &&& popcount(final(self).cell(e.p.y as int, e.p.x as int)) == 0
                },
            },
    {
        self.resetrow()
    }
}

} // verus!
