use vstd::prelude::*;

use crate::rng::stream_u32;
use crate::rng::SeededRng;
use crate::tile::lemma_offset_row;
use crate::tile::Tile;

verus! {

/// How many of the first `n` entries of `s` are `true`.
pub open spec fn count_prefix(s: Seq<bool>, n: int) -> int
    decreases n,
{
    if n <= 0 {
        0
    } else {
        count_prefix(s, n - 1) + if s[n - 1] {
            1int
        } else {
            0int
        }
    }
}

/// How many entries of a whole superposition are `true`.
pub open spec fn count_true(s: Seq<bool>) -> int {
    count_prefix(s, s.len() as int)
}

pub proof fn lemma_count_bounds(s: Seq<bool>, n: int)
    requires
        0 <= n,
    ensures
        0 <= count_prefix(s, n) <= n,
    decreases n,
{
    if n > 0 {
        lemma_count_bounds(s, n - 1);
    }
}

pub proof fn lemma_count_mono(s: Seq<bool>, m: int, n: int)
    requires
        0 <= m <= n,
    ensures
        count_prefix(s, m) <= count_prefix(s, n),
        count_prefix(s, n) - count_prefix(s, m) <= n - m,
    decreases n,
{
    if m < n {
        lemma_count_mono(s, m, n - 1);
    }
}

/// A superposition whose first `n` entries hold at most one `true` bit holds
/// it at one position only.
pub proof fn lemma_count_unique(s: Seq<bool>, n: int, i: int, j: int)
    requires
        0 <= i < n,
        0 <= j < n,
        s[i],
        s[j],
        count_prefix(s, n) <= 1,
    ensures
        i == j,
{
    if i != j {
        let lo = if i < j {
            i
        } else {
            j
        };
        let hi = if i < j {
            j
        } else {
            i
        };
        lemma_count_bounds(s, lo);
        lemma_count_mono(s, lo + 1, hi);
        lemma_count_mono(s, hi + 1, n);
        assert(count_prefix(s, lo + 1) >= 1);
        assert(count_prefix(s, hi + 1) >= 2);
    }
}

pub proof fn lemma_count_update(s: Seq<bool>, n: int, i: int, v: bool)
    requires
        0 <= i < s.len(),
        0 <= n <= s.len(),
    ensures
        count_prefix(s.update(i, v), n) == if i < n {
            count_prefix(s, n) + (if v {
                1int
            } else {
                0int
            }) - (if s[i] {
                1int
            } else {
                0int
            })
        } else {
            count_prefix(s, n)
        },
    decreases n,
{
    if n > 0 {
        lemma_count_update(s, n - 1, i, v);
    }
}

/// Counting only reads the first `n` entries.
pub proof fn lemma_count_congruence(s: Seq<bool>, t: Seq<bool>, n: int)
    requires
        0 <= n,
        forall|i: int| 0 <= i < n ==> s[i] == t[i],
    ensures
        count_prefix(s, n) == count_prefix(t, n),
    decreases n,
{
    if n > 0 {
        lemma_count_congruence(s, t, n - 1);
    }
}

/// Pointwise implication of bits bounds the counts.
pub proof fn lemma_count_le_pointwise(s: Seq<bool>, t: Seq<bool>, n: int)
    requires
        0 <= n,
        forall|i: int| 0 <= i < n && s[i] ==> t[i],
    ensures
        count_prefix(s, n) <= count_prefix(t, n),
    decreases n,
{
    if n > 0 {
        lemma_count_le_pointwise(s, t, n - 1);
    }
}

/// The superposition that keeps exactly the candidate `sel`.
pub open spec fn one_hot(n: int, sel: int) -> Seq<bool> {
    Seq::new(n as nat, |i: int| i == sel)
}

pub proof fn lemma_count_one_hot(n: int, sel: int, m: int)
    requires
        0 <= sel < n,
        0 <= m <= n,
    ensures
        count_prefix(one_hot(n, sel), m) == if sel < m {
            1int
        } else {
            0int
        },
    decreases m,
{
    if m > 0 {
        lemma_count_one_hot(n, sel, m - 1);
    }
}

/// Whether `(x1, y1)` comes before `(x2, y2)` in the row-major scan order,
/// x outer and y inner.
pub open spec fn row_major_before(x1: int, y1: int, x2: int, y2: int) -> bool {
    x1 < x2 || (x1 == x2 && y1 < y2)
}

/// The entropy scan is deterministic: the characterisation of the selected
/// cell picks out one cell only.
pub proof fn lemma_lowest_unique(w: Wave, x1: int, y1: int, x2: int, y2: int)
    requires
        w.lowest_sel(x1, y1),
        w.lowest_sel(x2, y2),
    ensures
        x1 == x2,
        y1 == y2,
{
    if row_major_before(x1, y1, x2, y2) {
        assert(w.cell_count(x1, y1) <= w.cell_count(x2, y2));
        assert(false);
    } else if row_major_before(x2, y2, x1, y1) {
        assert(w.cell_count(x2, y2) <= w.cell_count(x1, y1));
        assert(false);
    }
}

/// The outcome of one solver step: either a cell was resolved to a tile and
/// the consequence propagated, or propagation emptied some cell and the grid
/// was rolled back to its state before the step.
#[derive(Clone, Copy, PartialEq, Eq, Structural, Debug)]
pub enum StepResult {
    Placed { x: usize, y: usize, tile: usize },
    Contradiction,
}

/// A wave function collapse solver: a pallet of tiles and a grid of cells,
/// each cell a superposition (one `bool` per tile id; `true` = still
/// possible), plus the seeded generator all randomness is drawn from.
pub struct Wave {
    /// The tile pallet; read-only once the solver is built.
    pub pallet: Vec<Tile>,
    /// Number of tiles in the pallet; every superposition has this length.
    pub pallet_size: usize,
    /// The grid: `wave[x][y][id]` is whether tile `id` is still possible at
    /// `(x, y)`.
    pub wave: Vec<Vec<Vec<bool>>>,
    /// Grid width.
    pub x: usize,
    /// Grid height.
    pub y: usize,
    /// The seeded random generator owned by this solver.
    pub rng: SeededRng,
}

impl Wave {
    /// The superposition at `(x, y)`.
    pub open spec fn cell(&self, x: int, y: int) -> Seq<bool> {
        self.wave@[x]@[y]@
    }

    /// How many candidates remain at `(x, y)`.
    pub open spec fn cell_count(&self, x: int, y: int) -> int {
        count_true(self.cell(x, y))
    }

    pub open spec fn in_bounds(&self, x: int, y: int) -> bool {
        0 <= x < self.x && 0 <= y < self.y
    }

    /// The kernel diameter shared by every tile of the pallet.
    pub open spec fn kernel(&self) -> int {
        self.pallet@[0].k as int
    }

    /// The kernel position of the zero offset.
    pub open spec fn center(&self) -> int {
        self.kernel() / 2
    }

    /// Shape invariant: superposition lengths equal the pallet size
    /// everywhere, every tile is well-formed, and one odd kernel size is
    /// shared by the whole pallet.
    pub open spec fn wf(&self) -> bool {
        &&& self.pallet_size == self.pallet@.len()
        &&& 1 <= self.pallet_size <= 0xffff_ffff
        &&& 2 <= self.x <= 0xffff_ffff
        &&& 2 <= self.y <= 0xffff_ffff
        &&& self.wave@.len() == self.x
        &&& forall|i: int| 0 <= i < self.x ==> (#[trigger] self.wave@[i]@).len() == self.y
        &&& forall|i: int, j: int|
            0 <= i < self.x && 0 <= j < self.y ==> (#[trigger] self.cell(i, j)).len()
                == self.pallet_size
        &&& forall|t: int|
            0 <= t < self.pallet_size ==> (#[trigger] self.pallet@[t]).wf(self.pallet_size as nat)
        &&& forall|t: int|
            0 <= t < self.pallet_size ==> (#[trigger] self.pallet@[t]).k == self.pallet@[0].k
    }

    /// Whether every tile still possible at `(x, y)` forbids the tile `id` at
    /// kernel position `(ox, oy)`: the combined constraint the cell projects
    /// onto that neighbor.
    pub open spec fn group_forbids(&self, x: int, y: int, ox: int, oy: int, id: int) -> bool {
        forall|t: int|
            0 <= t < self.pallet_size && self.cell(x, y)[t] ==> (#[trigger] self.pallet@[t]).forbids(
                ox,
                oy,
                id,
            )
    }

    /// Every constraint `(x, y)` projects outward is honoured by the grid.
    pub open spec fn cell_consistent(&self, x: int, y: int) -> bool {
        forall|ox: int, oy: int, id: int|
            0 <= ox < self.kernel() && 0 <= oy < self.kernel() && 0 <= id < self.pallet_size
                && self.in_bounds(x + ox - self.center(), y + oy - self.center())
                && #[trigger] self.group_forbids(x, y, ox, oy, id) ==> !self.cell(
                x + ox - self.center(),
                y + oy - self.center(),
            )[id]
    }

    /// Whether some candidate has been ruled out at `(x, y)`.
    pub open spec fn anyfalse(&self, x: int, y: int) -> bool {
        exists|id: int| 0 <= id < self.pallet_size && !(#[trigger] self.cell(x, y)[id])
    }

    /// The resting state propagation re-establishes after every step: every
    /// cell that has been narrowed at all projects no constraint the grid
    /// violates.
    pub open spec fn propagated(&self) -> bool {
        forall|x: int, y: int|
            self.in_bounds(x, y) && self.anyfalse(x, y) ==> #[trigger] self.cell_consistent(x, y)
    }

    /// Whether solving is over: no cell keeps more than one candidate, so
    /// every cell is either resolved or contradicted.
    pub open spec fn done_spec(&self) -> bool {
        forall|x: int, y: int| self.in_bounds(x, y) ==> #[trigger] self.cell_count(x, y) <= 1
    }

    /// Whether some cell has run out of candidates.
    pub open spec fn contradiction_spec(&self) -> bool {
        exists|x: int, y: int| self.in_bounds(x, y) && #[trigger] self.cell_count(x, y) == 0
    }
}

impl Wave {
    /// Total `true` bits in the first `m` cells of grid column `x`.
    pub open spec fn row_bits(&self, x: int, m: int) -> int
        decreases m,
    {
        if m <= 0 {
            0
        } else {
            self.row_bits(x, m - 1) + count_true(self.cell(x, m - 1))
        }
    }

    /// Total `true` bits in the first `n` grid columns.
    pub open spec fn bits_upto(&self, n: int) -> int
        decreases n,
    {
        if n <= 0 {
            0
        } else {
            self.bits_upto(n - 1) + self.row_bits(n - 1, self.y as int)
        }
    }

    /// Total `true` bits in the whole grid: the measure every collapse step
    /// strictly shrinks.
    pub open spec fn total_bits(&self) -> int {
        self.bits_upto(self.x as int)
    }

    /// Summed weight of the candidates among the first `n` tile ids of the
    /// superposition `s`.
    pub open spec fn weight_prefix(&self, s: Seq<bool>, n: int) -> int
        decreases n,
    {
        if n <= 0 {
            0
        } else {
            self.weight_prefix(s, n - 1) + if s[n - 1] {
                self.pallet@[n - 1].weight as int
            } else {
                0int
            }
        }
    }

    /// Summed weight of all candidates at `(x, y)`.
    pub open spec fn total_weight(&self, x: int, y: int) -> int {
        self.weight_prefix(self.cell(x, y), self.pallet_size as int)
    }
}

pub proof fn lemma_row_bits_nonneg(w: Wave, x: int, m: int)
    requires
        0 <= m,
    ensures
        0 <= w.row_bits(x, m),
    decreases m,
{
    if m > 0 {
        lemma_row_bits_nonneg(w, x, m - 1);
        lemma_count_bounds(w.cell(x, m - 1), w.cell(x, m - 1).len() as int);
    }
}

pub proof fn lemma_bits_nonneg(w: Wave, n: int)
    requires
        0 <= n,
    ensures
        0 <= w.bits_upto(n),
    decreases n,
{
    if n > 0 {
        lemma_bits_nonneg(w, n - 1);
        lemma_row_bits_nonneg(w, n - 1, w.y as int);
    }
}

/// Two grids that differ in at most the cell `(cx, cy)` differ in total bits
/// by exactly that cell's difference; row-level form.
pub proof fn lemma_row_bits_diff(v: Wave, w: Wave, x: int, m: int, cy: int)
    requires
        0 <= m,
        forall|q: int| 0 <= q < m && q != cy ==> v.cell(x, q) == w.cell(x, q),
    ensures
        0 <= cy < m ==> v.row_bits(x, m) - w.row_bits(x, m) == count_true(v.cell(x, cy))
            - count_true(w.cell(x, cy)),
        !(0 <= cy < m) ==> v.row_bits(x, m) == w.row_bits(x, m),
    decreases m,
{
    if m > 0 {
        lemma_row_bits_diff(v, w, x, m - 1, cy);
    }
}

/// Two grids that differ in at most the cell `(cx, cy)` differ in total bits
/// by exactly that cell's difference.
pub proof fn lemma_bits_diff(v: Wave, w: Wave, n: int, cx: int, cy: int)
    requires
        0 <= n,
        v.y == w.y,
        forall|p: int, q: int|
            0 <= p < n && 0 <= q < v.y && !(p == cx && q == cy) ==> v.cell(p, q) == w.cell(p, q),
    ensures
        0 <= cx < n && 0 <= cy < v.y ==> v.bits_upto(n) - w.bits_upto(n) == count_true(
            v.cell(cx, cy),
        ) - count_true(w.cell(cx, cy)),
        !(0 <= cx < n && 0 <= cy < v.y) ==> v.bits_upto(n) == w.bits_upto(n),
    decreases n,
{
    if n > 0 {
        lemma_bits_diff(v, w, n - 1, cx, cy);
        if n - 1 == cx {
            lemma_row_bits_diff(v, w, n - 1, v.y as int, cy);
        } else {
            lemma_row_bits_diff(v, w, n - 1, v.y as int, -1);
        }
    }
}

/// Cells whose counts shrink pointwise make the row total shrink.
pub proof fn lemma_row_bits_le(v: Wave, w: Wave, x: int, m: int)
    requires
        0 <= m,
        forall|q: int|
            0 <= q < m ==> count_true(#[trigger] v.cell(x, q)) <= count_true(w.cell(x, q)),
    ensures
        v.row_bits(x, m) <= w.row_bits(x, m),
    decreases m,
{
    if m > 0 {
        lemma_row_bits_le(v, w, x, m - 1);
    }
}

/// Cells whose counts shrink pointwise make the grid total shrink.
pub proof fn lemma_bits_le(v: Wave, w: Wave, n: int)
    requires
        0 <= n,
        v.y == w.y,
        forall|p: int, q: int|
            0 <= p < n && 0 <= q < v.y ==> count_true(#[trigger] v.cell(p, q)) <= count_true(
                w.cell(p, q),
            ),
    ensures
        v.bits_upto(n) <= w.bits_upto(n),
    decreases n,
{
    if n > 0 {
        lemma_bits_le(v, w, n - 1);
        lemma_row_bits_le(v, w, n - 1, v.y as int);
    }
}

pub proof fn lemma_weight_nonneg(w: Wave, s: Seq<bool>, n: int)
    requires
        0 <= n,
    ensures
        0 <= w.weight_prefix(s, n),
    decreases n,
{
    if n > 0 {
        lemma_weight_nonneg(w, s, n - 1);
    }
}

pub proof fn lemma_weight_mono(w: Wave, s: Seq<bool>, m: int, n: int)
    requires
        0 <= m <= n,
    ensures
        w.weight_prefix(s, m) <= w.weight_prefix(s, n),
    decreases n,
{
    if m < n {
        lemma_weight_mono(w, s, m, n - 1);
    }
}

/// A candidate of positive weight makes the candidate weight sum positive.
pub proof fn lemma_weight_pos(w: Wave, s: Seq<bool>, n: int, i: int)
    requires
        0 <= i < n,
        s[i],
        1 <= w.pallet@[i].weight,
    ensures
        1 <= w.weight_prefix(s, n),
{
    lemma_weight_nonneg(w, s, i);
    lemma_weight_mono(w, s, i + 1, n);
}

/// Roulette-wheel selection is deterministic: at most one candidate's
/// cumulative weight interval holds the draw `r`.
pub proof fn lemma_selection_unique(w: Wave, s: Seq<bool>, r: int, s1: int, s2: int)
    requires
        0 <= s1,
        0 <= s2,
        w.weight_prefix(s, s1) <= r < w.weight_prefix(s, s1 + 1),
        w.weight_prefix(s, s2) <= r < w.weight_prefix(s, s2 + 1),
    ensures
        s1 == s2,
{
    if s1 < s2 {
        lemma_weight_mono(w, s, s1 + 1, s2);
    } else if s2 < s1 {
        lemma_weight_mono(w, s, s2 + 1, s1);
    }
}

/// Same pallet and dimensions.
pub open spec fn same_shape(a: Wave, b: Wave) -> bool {
    &&& a.pallet == b.pallet
    &&& a.pallet_size == b.pallet_size
    &&& a.x == b.x
    &&& a.y == b.y
}

/// `a` is `b` with zero or more candidate bits cleared: same shape, same
/// superposition lengths, and every bit still set in `a` is set in `b`.
pub open spec fn narrowing_of(a: Wave, b: Wave) -> bool {
    &&& same_shape(a, b)
    &&& forall|p: int, q: int|
        0 <= p < a.x && 0 <= q < a.y ==> (#[trigger] a.cell(p, q)).len() == b.cell(p, q).len()
    &&& forall|p: int, q: int, id: int|
        0 <= p < a.x && 0 <= q < a.y && 0 <= id < a.pallet_size && (#[trigger] a.cell(p, q)[id])
            ==> b.cell(p, q)[id]
}

/// `post` is the propagation closure of `mid`: the greatest grid below `mid`
/// (bitwise) that is propagated. The worklist reaches exactly this fixed
/// point, whatever order it processes cells in.
pub open spec fn closure_of(mid: Wave, post: Wave) -> bool {
    &&& narrowing_of(post, mid)
    &&& post.propagated()
    &&& forall|g: Wave| #[trigger] narrowing_of(g, mid) && g.propagated() ==> narrowing_of(g, post)
}

/// Narrowing is transitive.
pub proof fn lemma_narrowing_trans(a: Wave, b: Wave, c: Wave)
    requires
        narrowing_of(a, b),
        narrowing_of(b, c),
    ensures
        narrowing_of(a, c),
{
}

/// The propagation closure is unique: two closures of grids with equal cells
/// have equal cells.
pub proof fn lemma_closure_unique(mid1: Wave, c1: Wave, mid2: Wave, c2: Wave)
    requires
        same_shape(mid1, mid2),
        forall|p: int, q: int|
            0 <= p < mid1.x && 0 <= q < mid1.y ==> #[trigger] mid1.cell(p, q) == mid2.cell(p, q),
        forall|p: int, q: int|
            0 <= p < mid1.x && 0 <= q < mid1.y ==> (#[trigger] mid1.cell(p, q)).len()
                == mid1.pallet_size,
        closure_of(mid1, c1),
        closure_of(mid2, c2),
    ensures
        forall|p: int, q: int|
            0 <= p < mid1.x && 0 <= q < mid1.y ==> #[trigger] c1.cell(p, q) == c2.cell(p, q),
{
    assert(narrowing_of(c2, mid1));
    assert(narrowing_of(c1, mid2));
    assert(narrowing_of(c2, c1));
    assert(narrowing_of(c1, c2));
    assert forall|p: int, q: int|
        0 <= p < mid1.x && 0 <= q < mid1.y implies #[trigger] c1.cell(p, q) == c2.cell(p, q) by {
        assert forall|id: int| 0 <= id < c1.cell(p, q).len() implies c1.cell(p, q)[id] == c2.cell(
            p,
            q,
        )[id] by {
            assert(c1.cell(p, q)[id] ==> c2.cell(p, q)[id]);
            assert(c2.cell(p, q)[id] ==> c1.cell(p, q)[id]);
        }
        assert(c1.cell(p, q) =~= c2.cell(p, q));
    }
}

/// How many candidates remain in one superposition.
fn count_cell(cell: &Vec<bool>) -> (c: usize)
    ensures
        c == count_true(cell@),
{
    let mut c: usize = 0;
    let mut i: usize = 0;
    while i < cell.len()
        invariant
            i <= cell@.len(),
            c == count_prefix(cell@, i as int),
            c <= i,
        decreases cell@.len() - i,
    {
        if cell[i] {
            c = c + 1;
        }
        i = i + 1;
    }
    c
}

impl Wave {
    /// A solver over the given pallet and grid dimensions, with every cell in
    /// full superposition and the generator seeded from `seed`.
    pub fn new(pallet: Vec<Tile>, x: usize, y: usize, seed: u64) -> (w: Wave)
        requires
            1 < x <= 0xffff_ffff,
            1 < y <= 0xffff_ffff,
            1 <= pallet@.len() <= 0xffff_ffff,
            forall|t: int|
                0 <= t < pallet@.len() ==> (#[trigger] pallet@[t]).wf(pallet@.len() as nat),
            forall|t: int| 0 <= t < pallet@.len() ==> (#[trigger] pallet@[t]).k == pallet@[0].k,
        ensures
            w.wf(),
            w.propagated(),
            w.x == x,
            w.y == y,
            w.pallet == pallet,
            w.pallet_size == pallet@.len(),
            w.rng.seed() == seed,
            w.rng.drawn() == 0,
            forall|i: int, j: int, id: int|
                0 <= i < x && 0 <= j < y && 0 <= id < pallet@.len() ==> (#[trigger] w.cell(i, j)[id]),
    {
        let pallet_size = pallet.len();
        let mut grid: Vec<Vec<Vec<bool>>> = Vec::new();
        let mut i: usize = 0;
        while i < x
            invariant
                i <= x,
                grid@.len() == i,
                forall|p: int| 0 <= p < i ==> (#[trigger] grid@[p]@).len() == y,
                forall|p: int, q: int|
                    0 <= p < i && 0 <= q < y ==> (#[trigger] grid@[p]@[q]@).len() == pallet_size,
                forall|p: int, q: int, id: int|
                    0 <= p < i && 0 <= q < y && 0 <= id < pallet_size ==> (#[trigger] grid@[p]@[q]@[id]),
            decreases x - i,
        {
            let mut col: Vec<Vec<bool>> = Vec::new();
            let mut j: usize = 0;
            while j < y
                invariant
                    j <= y,
                    col@.len() == j,
                    forall|q: int| 0 <= q < j ==> (#[trigger] col@[q]@).len() == pallet_size,
                    forall|q: int, id: int|
                        0 <= q < j && 0 <= id < pallet_size ==> (#[trigger] col@[q]@[id]),
                decreases y - j,
            {
                let mut cell: Vec<bool> = Vec::new();
                let mut id: usize = 0;
                while id < pallet_size
                    invariant
                        id <= pallet_size,
                        cell@.len() == id,
                        forall|q: int| 0 <= q < id ==> (#[trigger] cell@[q]),
                    decreases pallet_size - id,
                {
                    cell.push(true);
                    id = id + 1;
                }
                col.push(cell);
                j = j + 1;
            }
            grid.push(col);
            i = i + 1;
        }
        let w = Wave { pallet, pallet_size, wave: grid, x, y, rng: SeededRng::new(seed) };
        proof {
            assert forall|xx: int, yy: int|
                w.in_bounds(xx, yy) && w.anyfalse(xx, yy) implies #[trigger] w.cell_consistent(
                xx,
                yy,
            ) by {
                assert(forall|id: int| 0 <= id < w.pallet_size ==> (#[trigger] w.cell(xx, yy)[id]));
            }
        }
        w
    }

    /// Whether the wave is fully collapsed: every cell holds at most one
    /// candidate. True both on success and on a contradiction; check
    /// `is_contradiction` to tell them apart.
    pub fn is_done(&self) -> (r: bool)
        requires
            self.wf(),
        ensures
            r == self.done_spec(),
    {
        let mut x: usize = 0;
        while x < self.x
            invariant
                self.wf(),
                x <= self.x,
                forall|p: int, q: int|
                    0 <= p < x && 0 <= q < self.y ==> #[trigger] self.cell_count(p, q) <= 1,
            decreases self.x - x,
        {
            let mut y: usize = 0;
            while y < self.y
                invariant
                    self.wf(),
                    x < self.x,
                    y <= self.y,
                    forall|q: int| 0 <= q < y ==> #[trigger] self.cell_count(x as int, q) <= 1,
                decreases self.y - y,
            {
                let c = count_cell(&self.wave[x][y]);
                if c > 1 {
                    proof {
                        assert(self.in_bounds(x as int, y as int));
                        assert(self.cell_count(x as int, y as int) > 1);
                    }
                    return false;
                }
                y = y + 1;
            }
            x = x + 1;
        }
        true
    }

    /// The cell `get_lowest_entropy` selects: the first cell in row-major
    /// order (x outer, y inner) whose candidate count is minimal among the
    /// cells still open (count at least 2). Entropy `1 - 1/c` grows strictly
    /// with the count `c`, so ranking by count ranks by entropy.
    pub open spec fn lowest_sel(&self, bx: int, by: int) -> bool {
        &&& self.in_bounds(bx, by)
        &&& 2 <= self.cell_count(bx, by)
        &&& forall|x: int, y: int|
            self.in_bounds(x, y) && 2 <= #[trigger] self.cell_count(x, y) ==> self.cell_count(
                bx,
                by,
            ) <= self.cell_count(x, y)
        &&& forall|x: int, y: int|
            self.in_bounds(x, y) && row_major_before(x, y, bx, by) ==> #[trigger] self.cell_count(
                x,
                y,
            ) < 2 || self.cell_count(x, y) > self.cell_count(bx, by)
    }

    /// The open cell with the lowest entropy, ties broken by scan order; the
    /// scan keeps only strictly lower values, so the first cell attaining the
    /// minimum wins. Returns `(0, 0)` when no cell is open.
    pub fn get_lowest_entropy(&self) -> (r: (usize, usize))
        requires
            self.wf(),
        ensures
            !self.done_spec() ==> self.lowest_sel(r.0 as int, r.1 as int),
            self.done_spec() ==> r == (0usize, 0usize),
    {
        let mut best_x: usize = 0;
        let mut best_y: usize = 0;
        let mut best_c: usize = 0;
        let mut found = false;
        let mut x: usize = 0;
        while x < self.x
            invariant
                self.wf(),
                x <= self.x,
                !found ==> best_x == 0 && best_y == 0,
                found ==> self.in_bounds(best_x as int, best_y as int) && best_x < x,
                found ==> best_c == self.cell_count(best_x as int, best_y as int) && 2 <= best_c,
                forall|p: int, q: int|
                    self.in_bounds(p, q) && p < x && 2 <= #[trigger] self.cell_count(p, q) ==> found
                        && best_c <= self.cell_count(p, q),
                forall|p: int, q: int|
                    self.in_bounds(p, q) && found && row_major_before(
                        p,
                        q,
                        best_x as int,
                        best_y as int,
                    ) ==> #[trigger] self.cell_count(p, q) < 2 || self.cell_count(p, q) > best_c,
            decreases self.x - x,
        {
            let mut y: usize = 0;
            while y < self.y
                invariant
                    self.wf(),
                    x < self.x,
                    y <= self.y,
                    !found ==> best_x == 0 && best_y == 0,
                    found ==> self.in_bounds(best_x as int, best_y as int) && row_major_before(
                        best_x as int,
                        best_y as int,
                        x as int,
                        y as int,
                    ),
                    found ==> best_c == self.cell_count(best_x as int, best_y as int) && 2
                        <= best_c,
                    forall|p: int, q: int|
                        self.in_bounds(p, q) && row_major_before(p, q, x as int, y as int) && 2
                            <= #[trigger] self.cell_count(p, q) ==> found && best_c
                            <= self.cell_count(p, q),
                    forall|p: int, q: int|
                        self.in_bounds(p, q) && found && row_major_before(
                            p,
                            q,
                            best_x as int,
                            best_y as int,
                        ) ==> #[trigger] self.cell_count(p, q) < 2 || self.cell_count(p, q)
                            > best_c,
                decreases self.y - y,
            {
                let c = count_cell(&self.wave[x][y]);
                if c >= 2 && (!found || c < best_c) {
                    found = true;
                    best_c = c;
                    best_x = x;
                    best_y = y;
                }
                y = y + 1;
            }
            x = x + 1;
        }
        (best_x, best_y)
    }

    /// Whether some cell has no candidate left: the current assignment is
    /// unsatisfiable.
    pub fn is_contradiction(&self) -> (r: bool)
        requires
            self.wf(),
        ensures
            r == self.contradiction_spec(),
    {
        let mut x: usize = 0;
        while x < self.x
            invariant
                self.wf(),
                x <= self.x,
                forall|p: int, q: int|
                    0 <= p < x && 0 <= q < self.y ==> #[trigger] self.cell_count(p, q) != 0,
            decreases self.x - x,
        {
            let mut y: usize = 0;
            while y < self.y
                invariant
                    self.wf(),
                    x < self.x,
                    y <= self.y,
                    forall|q: int| 0 <= q < y ==> #[trigger] self.cell_count(x as int, q) != 0,
                decreases self.y - y,
            {
                let c = count_cell(&self.wave[x][y]);
                if c == 0 {
                    proof {
                        assert(self.in_bounds(x as int, y as int));
                        assert(self.cell_count(x as int, y as int) == 0);
                    }
                    return true;
                }
                y = y + 1;
            }
            x = x + 1;
        }
        false
    }
}

/// Whether the worklist holds the cell `(p, q)`.
pub open spec fn in_stack(st: Seq<(usize, usize)>, p: int, q: int) -> bool {
    exists|i: int| 0 <= i < st.len() && (#[trigger] st[i]).0 == p && st[i].1 == q
}

/// Whether every tile among the first `upto` that `cand` keeps possible has
/// mask row `r` set at `id`: the conjunction of the candidates' masks.
pub open spec fn masks_and(pallet: Seq<Tile>, cand: Seq<bool>, upto: int, r: int, id: int) -> bool {
    forall|u: int| 0 <= u < upto && cand[u] ==> (#[trigger] pallet[u]).mask@[r]@[id]
}

pub proof fn lemma_masks_and_step(pallet: Seq<Tile>, cand: Seq<bool>, t: int, r: int, id: int)
    requires
        0 <= t,
    ensures
        masks_and(pallet, cand, t + 1, r, id) == (masks_and(pallet, cand, t, r, id) && (cand[t]
            ==> pallet[t].mask@[r]@[id])),
{
    if masks_and(pallet, cand, t + 1, r, id) {
        assert forall|u: int| 0 <= u < t && cand[u] implies (#[trigger] pallet[u]).mask@[r]@[id] by {
            assert(0 <= u < t + 1);
        }
        assert(cand[t] ==> pallet[t].mask@[r]@[id]);
    } else {
        if masks_and(pallet, cand, t, r, id) && (cand[t] ==> pallet[t].mask@[r]@[id]) {
            assert forall|u: int| 0 <= u < t + 1 && cand[u] implies (
            #[trigger] pallet[u]).mask@[r]@[id] by {
                if u < t {
                } else {
                    assert(u == t);
                }
            }
            assert(false);
        }
    }
}

/// Whether `(p, q)` is on the worklist.
fn stack_contains(st: &Vec<(usize, usize)>, p: usize, q: usize) -> (r: bool)
    ensures
        r == in_stack(st@, p as int, q as int),
{
    let mut i: usize = 0;
    while i < st.len()
        invariant
            i <= st@.len(),
            forall|j: int| 0 <= j < i ==> !((#[trigger] st@[j]).0 == p && st@[j].1 == q),
        decreases st@.len() - i,
    {
        let (a, b) = st[i];
        if a == p && b == q {
            return true;
        }
        i = i + 1;
    }
    false
}

/// The grid coordinate at kernel position `o` (offset `o - c`) from `base`,
/// or `None` when it falls outside `[0, limit)`.
fn offset_coord(base: usize, o: usize, c: usize, limit: usize) -> (r: Option<usize>)
    requires
        base < limit,
    ensures
        match r {
            Some(n) => n < limit && n as int == base + o - c,
            None => !(0 <= base + o - c < limit),
        },
{
    if o >= c {
        let d = o - c;
        if d < limit - base {
            Some(base + d)
        } else {
            None
        }
    } else {
        let d = c - o;
        if d <= base {
            Some(base - d)
        } else {
            None
        }
    }
}

impl Wave {
    /// Clear the candidate bit `id` at `(px, py)`; nothing else changes.
    fn clear_bit(&mut self, px: usize, py: usize, id: usize)
        requires
            old(self).wf(),
            old(self).in_bounds(px as int, py as int),
            id < old(self).pallet_size,
        ensures
            final(self).wf(),
            final(self).pallet == old(self).pallet,
            final(self).pallet_size == old(self).pallet_size,
            final(self).x == old(self).x,
            final(self).y == old(self).y,
            final(self).rng == old(self).rng,
            final(self).cell(px as int, py as int) == old(self).cell(px as int, py as int).update(
                id as int,
                false,
            ),
            forall|p: int, q: int|
                old(self).in_bounds(p, q) && !(p == px && q == py) ==> #[trigger] final(self).cell(
                    p,
                    q,
                ) == old(self).cell(p, q),
    {
        proof {
            assert(self.cell(px as int, py as int).len() == self.pallet_size);
        }
        {
            let col = &mut self.wave[px];
            let cellv = &mut col[py];
            cellv.set(id, false);
        }
        proof {
            assert(self.wave@ == old(self).wave@.update(
                px as int,
                self.wave@[px as int],
            ));
            assert forall|p: int, q: int|
                old(self).in_bounds(p, q) && !(p == px && q == py) implies #[trigger] self.cell(
                p,
                q,
            ) == old(self).cell(p, q) by {
                if p != px {
                    assert(self.wave@[p] == old(self).wave@[p]);
                } else {
                    assert(self.wave@[p]@ == old(self).wave@[p]@.update(
                        py as int,
                        self.wave@[p]@[py as int],
                    ));
                    assert(self.wave@[p]@[q] == old(self).wave@[p]@[q]);
                }
            }
            assert(self.cell(px as int, py as int) == old(self).cell(px as int, py as int).update(
                id as int,
                false,
            ));
        }
    }

    /// The combined constraint the cell `(cx, cy)` projects outward: the
    /// conjunction, over all its remaining candidates, of their masks.
    fn combine_masks(&self, cx: usize, cy: usize) -> (combined: Vec<Vec<bool>>)
        requires
            self.wf(),
            self.in_bounds(cx as int, cy as int),
        ensures
            combined@.len() == self.kernel() * self.kernel(),
            forall|r: int|
                0 <= r < combined@.len() ==> (#[trigger] combined@[r]@).len() == self.pallet_size,
            forall|r: int, id: int|
                0 <= r < combined@.len() && 0 <= id < self.pallet_size ==> (
                #[trigger] combined@[r]@[id]) == masks_and(
                    self.pallet@,
                    self.cell(cx as int, cy as int),
                    self.pallet_size as int,
                    r,
                    id,
                ),
    {
        let k = self.pallet[0].k;
        proof {
            assert((k as int) * (k as int) <= 0xffff * 0xffff) by (nonlinear_arith)
                requires
                    0 <= k <= 0xffff,
            ;
        }
        let rows = k * k;
        let ghost cand = self.cell(cx as int, cy as int);
        let mut combined = crate::tile::fill_mask(k, self.pallet_size, true);
        let mut t: usize = 0;
        while t < self.pallet_size
            invariant
                self.wf(),
                self.in_bounds(cx as int, cy as int),
                cand == self.cell(cx as int, cy as int),
                k == self.pallet@[0].k,
                rows == (k as int) * (k as int),
                t <= self.pallet_size,
                combined@.len() == rows,
                forall|r: int|
                    0 <= r < rows ==> (#[trigger] combined@[r]@).len() == self.pallet_size,
                forall|r: int, id: int|
                    0 <= r < rows && 0 <= id < self.pallet_size ==> (#[trigger] combined@[r]@[id])
                        == masks_and(self.pallet@, cand, t as int, r, id),
            decreases self.pallet_size - t,
        {
            if self.wave[cx][cy][t] {
                let mut r: usize = 0;
                while r < rows
                    invariant
                        self.wf(),
                        self.in_bounds(cx as int, cy as int),
                        cand == self.cell(cx as int, cy as int),
                        cand[t as int],
                        k == self.pallet@[0].k,
                        rows == (k as int) * (k as int),
                        t < self.pallet_size,
                        r <= rows,
                        combined@.len() == rows,
                        forall|p: int|
                            0 <= p < rows ==> (#[trigger] combined@[p]@).len() == self.pallet_size,
                        forall|p: int, id: int|
                            0 <= p < r && 0 <= id < self.pallet_size ==> (
                            #[trigger] combined@[p]@[id]) == masks_and(
                                self.pallet@,
                                cand,
                                t as int + 1,
                                p,
                                id,
                            ),
                        forall|p: int, id: int|
                            r <= p < rows && 0 <= id < self.pallet_size ==> (
                            #[trigger] combined@[p]@[id]) == masks_and(
                                self.pallet@,
                                cand,
                                t as int,
                                p,
                                id,
                            ),
                    decreases rows - r,
                {
                    let mut newrow: Vec<bool> = Vec::new();
                    let mut id: usize = 0;
                    while id < self.pallet_size
                        invariant
                            self.wf(),
                            cand[t as int],
                            k == self.pallet@[0].k,
                            rows == (k as int) * (k as int),
                            t < self.pallet_size,
                            r < rows,
                            combined@.len() == rows,
                            forall|p: int|
                                0 <= p < rows ==> (#[trigger] combined@[p]@).len()
                                    == self.pallet_size,
                            forall|p: int, j: int|
                                r <= p < rows && 0 <= j < self.pallet_size ==> (
                                #[trigger] combined@[p]@[j]) == masks_and(
                                    self.pallet@,
                                    cand,
                                    t as int,
                                    p,
                                    j,
                                ),
                            id <= self.pallet_size,
                            newrow@.len() == id,
                            forall|j: int|
                                0 <= j < id ==> (#[trigger] newrow@[j]) == masks_and(
                                    self.pallet@,
                                    cand,
                                    t as int + 1,
                                    r as int,
                                    j,
                                ),
                        decreases self.pallet_size - id,
                    {
                        let v = combined[r][id] && self.pallet[t].mask[r][id];
                        proof {
                            lemma_masks_and_step(self.pallet@, cand, t as int, r as int, id as int);
                        }
                        newrow.push(v);
                        id = id + 1;
                    }
                    combined.set(r, newrow);
                    r = r + 1;
                }
            } else {
                proof {
                    assert forall|p: int, id: int|
                        0 <= p < rows && 0 <= id < self.pallet_size implies (
                    #[trigger] combined@[p]@[id]) == masks_and(
                        self.pallet@,
                        cand,
                        t as int + 1,
                        p,
                        id,
                    ) by {
                        lemma_masks_and_step(self.pallet@, cand, t as int, p, id);
                    }
                }
            }
            t = t + 1;
        }
        combined
    }
}

/// One justified bit clear keeps the worklist's result above every propagated
/// narrowing of the entry grid: if every candidate the popped cell kept at
/// pop time forbids `id` at offset `(ox, oy)`, then no propagated narrowing
/// keeps that bit in the neighbor.
proof fn lemma_closure_step(
    entry: Wave,
    cur: Wave,
    at_pop: Wave,
    cx: int,
    cy: int,
    ox: int,
    oy: int,
    id: int,
)
    requires
        entry.wf(),
        narrowing_of(cur, at_pop),
        narrowing_of(at_pop, entry),
        at_pop.in_bounds(cx, cy),
        at_pop.anyfalse(cx, cy),
        0 <= ox < entry.kernel(),
        0 <= oy < entry.kernel(),
        0 <= id < entry.pallet_size,
        entry.in_bounds(cx + ox - entry.center(), cy + oy - entry.center()),
        masks_and(
            entry.pallet@,
            at_pop.cell(cx, cy),
            entry.pallet_size as int,
            ox * entry.kernel() + oy,
            id,
        ),
        forall|g: Wave| #[trigger] narrowing_of(g, entry) && g.propagated() ==> narrowing_of(g, cur),
    ensures
        forall|g: Wave|
            #[trigger] narrowing_of(g, entry) && g.propagated() ==> !g.cell(
                cx + ox - entry.center(),
                cy + oy - entry.center(),
            )[id],
{
    let k = entry.kernel();
    let c = entry.center();
    let nx = cx + ox - c;
    let ny = cy + oy - c;
    assert forall|g: Wave| #[trigger] narrowing_of(g, entry) && g.propagated() implies !g.cell(
        nx,
        ny,
    )[id] by {
        assert(narrowing_of(g, cur));
        lemma_narrowing_trans(g, cur, at_pop);
        let id0 = choose|i: int| 0 <= i < at_pop.pallet_size && !at_pop.cell(cx, cy)[i];
        assert(g.cell(cx, cy)[id0] ==> at_pop.cell(cx, cy)[id0]);
        assert(g.anyfalse(cx, cy));
        assert forall|t: int| 0 <= t < g.pallet_size && g.cell(cx, cy)[t] implies (
        #[trigger] g.pallet@[t]).forbids(ox, oy, id) by {
            assert(at_pop.cell(cx, cy)[t]);
            assert((#[trigger] entry.pallet@[t]).mask@[ox * k + oy]@[id]);
            assert(entry.pallet@[t].k == entry.pallet@[0].k);
        }
        assert(g.group_forbids(cx, cy, ox, oy, id));
        assert(g.cell_consistent(cx, cy));
        assert(!g.cell(nx, ny)[id]);
    }
}

/// Narrowing keeps a narrowed cell narrowed.
proof fn lemma_anyfalse_narrowing(pre: Wave, post: Wave, p: int, q: int)
    requires
        narrowing_of(post, pre),
        0 <= p < pre.x,
        0 <= q < pre.y,
        pre.anyfalse(p, q),
    ensures
        post.anyfalse(p, q),
{
    let id0 = choose|i: int| 0 <= i < pre.pallet_size && !pre.cell(p, q)[i];
    assert(post.cell(p, q)[id0] ==> pre.cell(p, q)[id0]);
    assert(!post.cell(p, q)[id0]);
}

/// Clearing bits elsewhere cannot break a cell whose own candidates are
/// untouched: its projected constraint is unchanged and the bits it forbids
/// stay cleared.
proof fn lemma_consistent_after_clear(pre: Wave, post: Wave, p: int, q: int)
    requires
        narrowing_of(post, pre),
        0 <= p < pre.x,
        0 <= q < pre.y,
        post.cell(p, q) == pre.cell(p, q),
        pre.cell_consistent(p, q),
    ensures
        post.cell_consistent(p, q),
{
    assert forall|ox: int, oy: int, j: int|
        0 <= ox < post.kernel() && 0 <= oy < post.kernel() && 0 <= j < post.pallet_size
            && post.in_bounds(p + ox - post.center(), q + oy - post.center())
            && #[trigger] post.group_forbids(p, q, ox, oy, j) implies !post.cell(
        p + ox - post.center(),
        q + oy - post.center(),
    )[j] by {
        assert forall|t: int| 0 <= t < pre.pallet_size && pre.cell(p, q)[t] implies (
        #[trigger] pre.pallet@[t]).forbids(ox, oy, j) by {
            assert(post.cell(p, q)[t]);
        }
        assert(pre.group_forbids(p, q, ox, oy, j));
        let nx = p + ox - pre.center();
        let ny = q + oy - pre.center();
        assert(!pre.cell(nx, ny)[j]);
        assert(post.cell(nx, ny)[j] ==> pre.cell(nx, ny)[j]);
    }
}

/// A cell on the worklist stays on it when the worklist only grows at the
/// end.
proof fn lemma_in_stack_extend(st: Seq<(usize, usize)>, st2: Seq<(usize, usize)>, p: int, q: int)
    requires
        st.len() <= st2.len(),
        forall|i: int| 0 <= i < st.len() ==> st2[i] == st[i],
        in_stack(st, p, q),
    ensures
        in_stack(st2, p, q),
{
    let i0 = choose|i: int| 0 <= i < st.len() && (#[trigger] st[i]).0 == p && st[i].1 == q;
    assert((#[trigger] st2[i0]).0 == p && st2[i0].1 == q);
}

/// A flat mask row below `k * k` decomposes into its kernel coordinates.
pub proof fn lemma_row_decompose(k: int, a: int, b: int)
    by (nonlinear_arith)
    requires
        0 < k,
        0 <= a,
        0 <= b < k,
    ensures
        (a * k + b) / k == a,
        (a * k + b) % k == b,
{
}

impl Wave {
    /// Apply the combined constraint of the just-popped cell `(cx, cy)` to
    /// every in-bounds neighbor within the kernel, clearing forbidden bits
    /// and pushing every changed neighbor that is not already queued.
    #[verifier::loop_isolation(false)]
    #[verifier::rlimit(60)]
    fn apply_cell(
        &mut self,
        stack: &mut Vec<(usize, usize)>,
        cx: usize,
        cy: usize,
        combined: &Vec<Vec<bool>>,
        Ghost(entry): Ghost<Wave>,
    )
        requires
            old(self).wf(),
            entry.wf(),
            narrowing_of(*old(self), entry),
            old(self).in_bounds(cx as int, cy as int),
            old(self).anyfalse(cx as int, cy as int),
            combined@.len() == old(self).kernel() * old(self).kernel(),
            forall|r: int|
                0 <= r < combined@.len() ==> (#[trigger] combined@[r]@).len() == old(
                    self,
                ).pallet_size,
            forall|r: int, id: int|
                0 <= r < combined@.len() && 0 <= id < old(self).pallet_size ==> (
                #[trigger] combined@[r]@[id]) == masks_and(
                    old(self).pallet@,
                    old(self).cell(cx as int, cy as int),
                    old(self).pallet_size as int,
                    r,
                    id,
                ),
            forall|i: int|
                0 <= i < old(stack)@.len() ==> old(self).in_bounds(
                    (#[trigger] old(stack)@[i]).0 as int,
                    old(stack)@[i].1 as int,
                ) && old(self).anyfalse(old(stack)@[i].0 as int, old(stack)@[i].1 as int),
            forall|p: int, q: int|
                old(self).in_bounds(p, q) && old(self).anyfalse(p, q) && !in_stack(
                    old(stack)@,
                    p,
                    q,
                ) && !(p == cx && q == cy) ==> #[trigger] old(self).cell_consistent(p, q),
            forall|g: Wave|
                #[trigger] narrowing_of(g, entry) && g.propagated() ==> narrowing_of(g, *old(self)),
        ensures
            final(self).wf(),
            final(self).pallet == old(self).pallet,
            final(self).pallet_size == old(self).pallet_size,
            final(self).x == old(self).x,
            final(self).y == old(self).y,
            final(self).rng == old(self).rng,
            narrowing_of(*final(self), *old(self)),
            forall|i: int|
                0 <= i < final(stack)@.len() ==> final(self).in_bounds(
                    (#[trigger] final(stack)@[i]).0 as int,
                    final(stack)@[i].1 as int,
                ) && final(self).anyfalse(final(stack)@[i].0 as int, final(stack)@[i].1 as int),
            forall|p: int, q: int|
                final(self).in_bounds(p, q) && final(self).anyfalse(p, q) && !in_stack(
                    final(stack)@,
                    p,
                    q,
                ) ==> #[trigger] final(self).cell_consistent(p, q),
            forall|g: Wave|
                #[trigger] narrowing_of(g, entry) && g.propagated() ==> narrowing_of(
                    g,
                    *final(self),
                ),
            2 * final(self).total_bits() + final(stack)@.len() <= 2 * old(self).total_bits() + old(
                stack,
            )@.len(),
    {
        let kk = self.pallet[0].k;
        let c = kk / 2;
        proof {
            assert((kk as int) * (kk as int) <= 0xffff * 0xffff) by (nonlinear_arith)
                requires
                    0 <= kk <= 0xffff,
            ;
        }
        let rows = kk * kk;
        let ghost cand0 = old(self).cell(cx as int, cy as int);
        let mut ox: usize = 0;
        while ox < kk
            invariant
                self.wf(),
                self.pallet == old(self).pallet,
                self.pallet_size == old(self).pallet_size,
                self.x == old(self).x,
                self.y == old(self).y,
                self.rng == old(self).rng,
                ox <= kk,
                narrowing_of(*self, *old(self)),
                self.cell(cx as int, cy as int) != cand0 ==> in_stack(stack@, cx as int, cy as int),
                forall|i: int|
                    0 <= i < stack@.len() ==> self.in_bounds(
                        (#[trigger] stack@[i]).0 as int,
                        stack@[i].1 as int,
                    ) && self.anyfalse(stack@[i].0 as int, stack@[i].1 as int),
                forall|p: int, q: int|
                    self.in_bounds(p, q) && self.anyfalse(p, q) && !in_stack(stack@, p, q) && !(p
                        == cx && q == cy) ==> #[trigger] self.cell_consistent(p, q),
                forall|g: Wave|
                    #[trigger] narrowing_of(g, entry) && g.propagated() ==> narrowing_of(g, *self),
                2 * self.total_bits() + stack@.len() <= 2 * old(self).total_bits() + old(
                    stack,
                )@.len(),
                forall|row: int, j: int|
                    0 <= row < ox * kk && 0 <= j < self.pallet_size && (
                    #[trigger] combined@[row]@[j]) && self.in_bounds(
                        cx + row / (kk as int) - c,
                        cy + row % (kk as int) - c,
                    ) ==> !self.cell(cx + row / (kk as int) - c, cy + row % (kk as int) - c)[j],
            decreases kk - ox,
        {
            let mut oy: usize = 0;
            while oy < kk
                invariant
                    self.wf(),
                    self.pallet == old(self).pallet,
                    self.pallet_size == old(self).pallet_size,
                    self.x == old(self).x,
                    self.y == old(self).y,
                    self.rng == old(self).rng,
                    ox < kk,
                    oy <= kk,
                    narrowing_of(*self, *old(self)),
                    self.cell(cx as int, cy as int) != cand0 ==> in_stack(
                        stack@,
                        cx as int,
                        cy as int,
                    ),
                    forall|i: int|
                        0 <= i < stack@.len() ==> self.in_bounds(
                            (#[trigger] stack@[i]).0 as int,
                            stack@[i].1 as int,
                        ) && self.anyfalse(stack@[i].0 as int, stack@[i].1 as int),
                    forall|p: int, q: int|
                        self.in_bounds(p, q) && self.anyfalse(p, q) && !in_stack(stack@, p, q) && !(
                        p == cx && q == cy) ==> #[trigger] self.cell_consistent(p, q),
                    forall|g: Wave|
                        #[trigger] narrowing_of(g, entry) && g.propagated() ==> narrowing_of(
                            g,
                            *self,
                        ),
                    2 * self.total_bits() + stack@.len() <= 2 * old(self).total_bits() + old(
                        stack,
                    )@.len(),
                    forall|row: int, j: int|
                        0 <= row < ox * kk + oy && 0 <= j < self.pallet_size && (
                        #[trigger] combined@[row]@[j]) && self.in_bounds(
                            cx + row / (kk as int) - c,
                            cy + row % (kk as int) - c,
                        ) ==> !self.cell(cx + row / (kk as int) - c, cy + row % (kk as int) - c)[j],
                decreases kk - oy,
            {
                proof {
                    lemma_offset_row(kk as int, ox as int, oy as int);
                }
                let row = ox * kk + oy;
                let nxo = offset_coord(cx, ox, c, self.x);
                let nyo = offset_coord(cy, oy, c, self.y);
                if let (Some(nx), Some(ny)) = (nxo, nyo) {
                    let mut id: usize = 0;
                    while id < self.pallet_size
                        invariant
                            self.wf(),
                            self.pallet == old(self).pallet,
                            self.pallet_size == old(self).pallet_size,
                            self.x == old(self).x,
                            self.y == old(self).y,
                            self.rng == old(self).rng,
                            id <= self.pallet_size,
                            nx < self.x,
                            ny < self.y,
                            nx as int == cx + ox - c,
                            ny as int == cy + oy - c,
                            narrowing_of(*self, *old(self)),
                            self.cell(cx as int, cy as int) != cand0 ==> in_stack(
                                stack@,
                                cx as int,
                                cy as int,
                            ),
                            forall|i: int|
                                0 <= i < stack@.len() ==> self.in_bounds(
                                    (#[trigger] stack@[i]).0 as int,
                                    stack@[i].1 as int,
                                ) && self.anyfalse(stack@[i].0 as int, stack@[i].1 as int),
                            forall|p: int, q: int|
                                self.in_bounds(p, q) && self.anyfalse(p, q) && !in_stack(
                                    stack@,
                                    p,
                                    q,
                                ) && !(p == cx && q == cy) ==> #[trigger] self.cell_consistent(
                                    p,
                                    q,
                                ),
                            forall|g: Wave|
                                #[trigger] narrowing_of(g, entry) && g.propagated()
                                    ==> narrowing_of(g, *self),
                            2 * self.total_bits() + stack@.len() <= 2 * old(self).total_bits()
                                + old(stack)@.len(),
                            forall|row2: int, j: int|
                                0 <= row2 < ox * kk + oy && 0 <= j < self.pallet_size && (
                                #[trigger] combined@[row2]@[j]) && self.in_bounds(
                                    cx + row2 / (kk as int) - c,
                                    cy + row2 % (kk as int) - c,
                                ) ==> !self.cell(
                                    cx + row2 / (kk as int) - c,
                                    cy + row2 % (kk as int) - c,
                                )[j],
                            forall|j: int|
                                0 <= j < id && (#[trigger] combined@[row as int]@[j]) ==> !self.cell(
                                    nx as int,
                                    ny as int,
                                )[j],
                        decreases self.pallet_size - id,
                    {
                        if combined[row][id] {
                            proof {
                                assert(self.wave@[nx as int]@.len() == self.y);
                                assert(self.cell(nx as int, ny as int).len() == self.pallet_size);
                            }
                            if self.wave[nx][ny][id] {
                                proof {
                                    lemma_closure_step(
                                        entry,
                                        *self,
                                        *old(self),
                                        cx as int,
                                        cy as int,
                                        ox as int,
                                        oy as int,
                                        id as int,
                                    );
                                }
                                let ghost pre = *self;
                                self.clear_bit(nx, ny, id);
                                proof {
                                    lemma_count_update(
                                        pre.cell(nx as int, ny as int),
                                        pre.cell(nx as int, ny as int).len() as int,
                                        id as int,
                                        false,
                                    );
                                    lemma_bits_diff(
                                        *self,
                                        pre,
                                        self.x as int,
                                        nx as int,
                                        ny as int,
                                    );
                                    assert(narrowing_of(*self, pre));
                                    lemma_narrowing_trans(*self, pre, *old(self));
                                    assert forall|g: Wave|
                                        #[trigger] narrowing_of(g, entry) && g.propagated()
                                            implies narrowing_of(g, *self) by {
                                        assert(narrowing_of(g, pre));
                                        assert(!g.cell(nx as int, ny as int)[id as int]);
                                        assert forall|p: int, q: int, j: int|
                                            0 <= p < g.x && 0 <= q < g.y && 0 <= j < g.pallet_size
                                                && (#[trigger] g.cell(p, q)[j]) implies self.cell(
                                            p,
                                            q,
                                        )[j] by {
                                            if p == nx as int && q == ny as int {
                                                assert(g.cell(p, q)[j] ==> pre.cell(p, q)[j]);
                                                assert(self.cell(p, q) == pre.cell(p, q).update(
                                                    id as int,
                                                    false,
                                                ));
                                            }
                                        }
                                    }
                                    assert forall|i: int| 0 <= i < stack@.len() implies self.in_bounds(
                                        (#[trigger] stack@[i]).0 as int,
                                        stack@[i].1 as int,
                                    ) && self.anyfalse(
                                        stack@[i].0 as int,
                                        stack@[i].1 as int,
                                    ) by {
                                        lemma_anyfalse_narrowing(
                                            pre,
                                            *self,
                                            stack@[i].0 as int,
                                            stack@[i].1 as int,
                                        );
                                    }
                                }
                                let ghost stack_before = stack@;
                                let already = stack_contains(&stack, nx, ny);
                                if !already {
                                    stack.push((nx, ny));
                                }
                                proof {
                                    assert(self.anyfalse(nx as int, ny as int)) by {
                                        assert(!self.cell(nx as int, ny as int)[id as int]);
                                    }
                                    if already {
                                        assert(in_stack(stack@, nx as int, ny as int));
                                    } else {
                                        assert(stack@[stack@.len() - 1] == (nx, ny));
                                        assert(in_stack(stack@, nx as int, ny as int));
                                    }
                                    assert forall|i: int| 0 <= i < stack@.len() implies self.in_bounds(
                                        (#[trigger] stack@[i]).0 as int,
                                        stack@[i].1 as int,
                                    ) && self.anyfalse(
                                        stack@[i].0 as int,
                                        stack@[i].1 as int,
                                    ) by {
                                        if i < stack_before.len() {
                                            assert(stack@[i] == stack_before[i]);
                                        } else {
                                            assert(stack@[i] == (nx, ny));
                                        }
                                    }
                                    assert forall|p: int, q: int|
                                        self.in_bounds(p, q) && self.anyfalse(p, q) && !in_stack(
                                            stack@,
                                            p,
                                            q,
                                        ) && !(p == cx && q == cy) implies #[trigger] self.cell_consistent(
                                        p,
                                        q,
                                    ) by {
                                        assert(!(p == nx as int && q == ny as int));
                                        assert(!in_stack(stack_before, p, q)) by {
                                            if in_stack(stack_before, p, q) {
                                                lemma_in_stack_extend(stack_before, stack@, p, q);
                                            }
                                        }
                                        assert(self.cell(p, q) == pre.cell(p, q));
                                        assert(pre.anyfalse(p, q));
                                        assert(pre.cell_consistent(p, q));
                                        lemma_consistent_after_clear(pre, *self, p, q);
                                    }
                                    assert(self.cell(cx as int, cy as int) != cand0 ==> in_stack(
                                        stack@,
                                        cx as int,
                                        cy as int,
                                    )) by {
                                        if self.cell(cx as int, cy as int) != cand0 {
                                            if nx as int == cx as int && ny as int == cy as int {
                                            } else {
                                                assert(self.cell(cx as int, cy as int) == pre.cell(
                                                    cx as int,
                                                    cy as int,
                                                ));
                                                lemma_in_stack_extend(
                                                    stack_before,
                                                    stack@,
                                                    cx as int,
                                                    cy as int,
                                                );
                                            }
                                        }
                                    }
                                }
                            }
                        }
                        id = id + 1;
                    }
                    proof {
                        lemma_row_decompose(kk as int, ox as int, oy as int);
                        assert forall|row2: int, j: int|
                            0 <= row2 < ox * kk + oy + 1 && 0 <= j < self.pallet_size && (
                            #[trigger] combined@[row2]@[j]) && self.in_bounds(
                                cx + row2 / (kk as int) - c,
                                cy + row2 % (kk as int) - c,
                            ) implies !self.cell(
                            cx + row2 / (kk as int) - c,
                            cy + row2 % (kk as int) - c,
                        )[j] by {
                            if row2 == ox * kk + oy {
                                assert(row2 / (kk as int) == ox as int);
                                assert(row2 % (kk as int) == oy as int);
                            }
                        }
                    }
                } else {
                    proof {
                        lemma_row_decompose(kk as int, ox as int, oy as int);
                        assert forall|row2: int, j: int|
                            0 <= row2 < ox * kk + oy + 1 && 0 <= j < self.pallet_size && (
                            #[trigger] combined@[row2]@[j]) && self.in_bounds(
                                cx + row2 / (kk as int) - c,
                                cy + row2 % (kk as int) - c,
                            ) implies !self.cell(
                            cx + row2 / (kk as int) - c,
                            cy + row2 % (kk as int) - c,
                        )[j] by {
                            if row2 == ox * kk + oy {
                                assert(row2 / (kk as int) == ox as int);
                                assert(row2 % (kk as int) == oy as int);
                                assert(false);
                            }
                        }
                    }
                }
                oy = oy + 1;
            }
            proof {
                assert((ox + 1) * kk == ox * kk + kk) by (nonlinear_arith);
            }
            ox = ox + 1;
        }
        proof {
            if self.cell(cx as int, cy as int) == cand0 {
                assert forall|a: int, b: int, j: int|
                    0 <= a < self.kernel() && 0 <= b < self.kernel() && 0 <= j < self.pallet_size
                        && self.in_bounds(
                        cx + a - self.center(),
                        cy + b - self.center(),
                    ) && #[trigger] self.group_forbids(cx as int, cy as int, a, b, j) implies !self.cell(
                    cx + a - self.center(),
                    cy + b - self.center(),
                )[j] by {
                    lemma_offset_row(kk as int, a, b);
                    lemma_row_decompose(kk as int, a, b);
                    let r = a * (kk as int) + b;
                    assert forall|u: int|
                        0 <= u < self.pallet_size && cand0[u] implies (
                    #[trigger] self.pallet@[u]).mask@[r]@[j] by {
                        assert(self.cell(cx as int, cy as int)[u]);
                        assert(self.pallet@[u].forbids(a, b, j));
                        assert(self.pallet@[u].k == self.pallet@[0].k);
                    }
                    assert(masks_and(
                        old(self).pallet@,
                        cand0,
                        self.pallet_size as int,
                        r,
                        j,
                    ));
                    assert(combined@[r]@[j]);
                    assert(r < (kk as int) * (kk as int));
                }
                assert(self.cell_consistent(cx as int, cy as int));
            }
            assert forall|p: int, q: int|
                self.in_bounds(p, q) && self.anyfalse(p, q) && !in_stack(stack@, p, q) implies #[trigger] self.cell_consistent(
                p,
                q,
            ) by {
                if p == cx as int && q == cy as int {
                    assert(self.cell(cx as int, cy as int) == cand0);
                }
            }
        }
    }
}

impl Wave {
    /// Fixed-point constraint propagation: a worklist seeded with `(sx, sy)`;
    /// pop a cell, combine the masks of its remaining candidates, apply the
    /// combination to every in-bounds neighbor in the kernel, and queue every
    /// neighbor that changed, until the worklist is empty. The grid that
    /// remains is exactly the propagation closure of the grid at entry: no
    /// cell can be narrowed further by reapplying the rule, and no bit is
    /// cleared that any propagated narrowing keeps.
    #[verifier::loop_isolation(false)]
    fn propagate(&mut self, sx: usize, sy: usize)
        requires
            old(self).wf(),
            old(self).in_bounds(sx as int, sy as int),
            old(self).anyfalse(sx as int, sy as int),
            forall|p: int, q: int|
                old(self).in_bounds(p, q) && !(p == sx && q == sy) && old(self).anyfalse(p, q)
                    ==> #[trigger] old(self).cell_consistent(p, q),
        ensures
            final(self).wf(),
            final(self).pallet == old(self).pallet,
            final(self).pallet_size == old(self).pallet_size,
            final(self).x == old(self).x,
            final(self).y == old(self).y,
            final(self).rng == old(self).rng,
            final(self).propagated(),
            closure_of(*old(self), *final(self)),
    {
        let mut stack: Vec<(usize, usize)> = Vec::new();
        stack.push((sx, sy));
        proof {
            assert(stack@[0] == (sx, sy));
            assert(in_stack(stack@, sx as int, sy as int));
            lemma_bits_nonneg(*self, self.x as int);
        }
        while stack.len() > 0
            invariant
                self.wf(),
                self.pallet == old(self).pallet,
                self.pallet_size == old(self).pallet_size,
                self.x == old(self).x,
                self.y == old(self).y,
                self.rng == old(self).rng,
                narrowing_of(*self, *old(self)),
                forall|i: int|
                    0 <= i < stack@.len() ==> self.in_bounds(
                        (#[trigger] stack@[i]).0 as int,
                        stack@[i].1 as int,
                    ) && self.anyfalse(stack@[i].0 as int, stack@[i].1 as int),
                forall|p: int, q: int|
                    self.in_bounds(p, q) && self.anyfalse(p, q) && !in_stack(stack@, p, q)
                        ==> #[trigger] self.cell_consistent(p, q),
                forall|g: Wave|
                    #[trigger] narrowing_of(g, *old(self)) && g.propagated() ==> narrowing_of(
                        g,
                        *self,
                    ),
            decreases 2 * self.total_bits() + stack@.len(),
        {
            let ghost stack_pre = stack@;
            let popped = stack.pop();
            let (cx, cy) = match popped {
                Some(t) => t,
                None => (0, 0),
            };
            proof {
                assert(stack_pre[stack_pre.len() - 1] == (cx, cy));
                assert(self.in_bounds(cx as int, cy as int));
                assert(self.anyfalse(cx as int, cy as int));
                assert forall|i: int| 0 <= i < stack@.len() implies self.in_bounds(
                    (#[trigger] stack@[i]).0 as int,
                    stack@[i].1 as int,
                ) && self.anyfalse(stack@[i].0 as int, stack@[i].1 as int) by {
                    assert(stack@[i] == stack_pre[i]);
                }
                assert forall|p: int, q: int|
                    self.in_bounds(p, q) && self.anyfalse(p, q) && !in_stack(stack@, p, q) && !(p
                        == cx && q == cy) implies #[trigger] self.cell_consistent(p, q) by {
                    assert(!in_stack(stack_pre, p, q)) by {
                        if in_stack(stack_pre, p, q) {
                            let i0 = choose|i: int|
                                0 <= i < stack_pre.len() && (#[trigger] stack_pre[i]).0 == p
                                    && stack_pre[i].1 == q;
                            assert(i0 < stack_pre.len() - 1);
                            assert((#[trigger] stack@[i0]).0 == p && stack@[i0].1 == q);
                        }
                    }
                }
            }
            let combined = self.combine_masks(cx, cy);
            self.apply_cell(&mut stack, cx, cy, &combined, Ghost(*old(self)));
            proof {
                lemma_bits_nonneg(*self, self.x as int);
            }
        }
        proof {
            assert forall|p: int, q: int|
                self.in_bounds(p, q) && self.anyfalse(p, q) implies #[trigger] self.cell_consistent(
                p,
                q,
            ) by {
                assert(!in_stack(stack@, p, q));
            }
            assert(self.propagated());
        }
    }
}

/// A positive count names a `true` bit.
pub proof fn lemma_count_exists(s: Seq<bool>, n: int)
    requires
        count_prefix(s, n) >= 1,
    ensures
        exists|i: int| 0 <= i < n && s[i],
    decreases n,
{
    if n > 0 {
        if s[n - 1] {
            assert(0 <= n - 1 < n && s[n - 1]);
        } else {
            lemma_count_exists(s, n - 1);
        }
    }
}

/// The resting state depends only on the pallet and the grid cells, not on
/// the generator.
proof fn lemma_propagated_congruence(a: Wave, b: Wave)
    requires
        same_shape(b, a),
        forall|p: int, q: int|
            0 <= p < a.x && 0 <= q < a.y ==> #[trigger] b.cell(p, q) == a.cell(p, q),
        a.propagated(),
    ensures
        b.propagated(),
{
    assert(narrowing_of(b, a));
    assert forall|p: int, q: int|
        b.in_bounds(p, q) && b.anyfalse(p, q) implies #[trigger] b.cell_consistent(p, q) by {
        let id0 = choose|i: int| 0 <= i < b.pallet_size && !b.cell(p, q)[i];
        assert(!a.cell(p, q)[id0]);
        assert(a.anyfalse(p, q));
        assert(a.cell_consistent(p, q));
        lemma_consistent_after_clear(a, b, p, q);
    }
}

/// A copy of one superposition.
fn copy_cell(cell: &Vec<bool>) -> (r: Vec<bool>)
    ensures
        r@ == cell@,
{
    let mut r: Vec<bool> = Vec::new();
    let mut i: usize = 0;
    while i < cell.len()
        invariant
            i <= cell@.len(),
            r@ == cell@.subrange(0, i as int),
        decreases cell@.len() - i,
    {
        r.push(cell[i]);
        i = i + 1;
    }
    proof {
        assert(r@ =~= cell@);
    }
    r
}

/// A copy of the whole grid, for the snapshot a step may roll back to.
fn copy_grid(g: &Vec<Vec<Vec<bool>>>) -> (r: Vec<Vec<Vec<bool>>>)
    ensures
        r@.len() == g@.len(),
        forall|p: int| 0 <= p < g@.len() ==> (#[trigger] r@[p]@).len() == g@[p]@.len(),
        forall|p: int, q: int|
            0 <= p < g@.len() && 0 <= q < g@[p]@.len() ==> (#[trigger] r@[p]@[q]@) == g@[p]@[q]@,
{
    let mut r: Vec<Vec<Vec<bool>>> = Vec::new();
    let mut p: usize = 0;
    while p < g.len()
        invariant
            p <= g@.len(),
            r@.len() == p,
            forall|a: int| 0 <= a < p ==> (#[trigger] r@[a]@).len() == g@[a]@.len(),
            forall|a: int, b: int|
                0 <= a < p && 0 <= b < g@[a]@.len() ==> (#[trigger] r@[a]@[b]@) == g@[a]@[b]@,
        decreases g@.len() - p,
    {
        let col = &g[p];
        let mut rc: Vec<Vec<bool>> = Vec::new();
        let mut q: usize = 0;
        while q < col.len()
            invariant
                q <= col@.len(),
                rc@.len() == q,
                forall|b: int| 0 <= b < q ==> (#[trigger] rc@[b]@) == col@[b]@,
            decreases col@.len() - q,
        {
            let cc = copy_cell(&col[q]);
            rc.push(cc);
            q = q + 1;
        }
        r.push(rc);
        p = p + 1;
    }
    r
}

/// The decision one step makes, as a function of the pre-step state alone:
/// `(bx, by)` is the entropy scan's cell and `sel` the tile that the seeded
/// generator's next draw selects by roulette wheel over the candidates'
/// weights.
pub open spec fn decision_of(pre: Wave, bx: int, by: int, sel: int) -> bool {
    &&& pre.lowest_sel(bx, by)
    &&& 0 <= sel < pre.pallet_size
    &&& pre.cell(bx, by)[sel]
    &&& ({
        let r = (stream_u32(pre.rng.seed(), pre.rng.drawn()) as int) % pre.total_weight(bx, by);
        pre.weight_prefix(pre.cell(bx, by), sel) <= r < pre.weight_prefix(
            pre.cell(bx, by),
            sel + 1,
        )
    })
}

/// One way a step can have gone: the decision, the grid `mid` right after
/// resolving the chosen cell, and the propagation closure `closed` of `mid`.
/// On a contradiction inside `closed` the grid is rolled back, else `closed`
/// is kept.
pub open spec fn step_witness(
    pre: Wave,
    post: Wave,
    r: StepResult,
    bx: int,
    by: int,
    sel: int,
    mid: Wave,
    closed: Wave,
) -> bool {
    &&& decision_of(pre, bx, by, sel)
    &&& same_shape(mid, pre)
    &&& mid.cell(bx, by) == one_hot(pre.pallet_size as int, sel)
    &&& forall|p: int, q: int|
        0 <= p < pre.x && 0 <= q < pre.y && !(p == bx && q == by) ==> (#[trigger] mid.cell(p, q))
            == pre.cell(p, q)
    &&& closure_of(mid, closed)
    &&& same_shape(post, pre)
    &&& post.rng.seed() == pre.rng.seed()
    &&& post.rng.drawn() == pre.rng.drawn() + 1
    &&& if closed.contradiction_spec() {
        r == StepResult::Contradiction && forall|p: int, q: int|
            0 <= p < pre.x && 0 <= q < pre.y ==> (#[trigger] post.cell(p, q)) == pre.cell(p, q)
    } else {
        r == (StepResult::Placed { x: bx as usize, y: by as usize, tile: sel as usize })
            && forall|p: int, q: int|
            0 <= p < pre.x && 0 <= q < pre.y ==> (#[trigger] post.cell(p, q)) == closed.cell(p, q)
    }
}

/// What one step does, as a relation between the pre-state, the post-state
/// and the reported outcome. Everything in it is a function of the pre-state,
/// which is what makes runs with equal seeds identical.
pub open spec fn step_rel(pre: Wave, post: Wave, r: StepResult) -> bool {
    exists|bx: int, by: int, sel: int, mid: Wave, closed: Wave|
        #[trigger] step_witness(pre, post, r, bx, by, sel, mid, closed)
}

/// One way a kept (non-rolled-back) step can have gone: the decision and the
/// grid `mid` right after resolving the chosen cell, whose propagation
/// closure is the post-state itself.
pub open spec fn core_witness(
    pre: Wave,
    post: Wave,
    r: StepResult,
    bx: int,
    by: int,
    sel: int,
    mid: Wave,
) -> bool {
    &&& decision_of(pre, bx, by, sel)
    &&& same_shape(mid, pre)
    &&& mid.cell(bx, by) == one_hot(pre.pallet_size as int, sel)
    &&& forall|p: int, q: int|
        0 <= p < pre.x && 0 <= q < pre.y && !(p == bx && q == by) ==> (#[trigger] mid.cell(p, q))
            == pre.cell(p, q)
    &&& closure_of(mid, post)
    &&& same_shape(post, pre)
    &&& post.rng.seed() == pre.rng.seed()
    &&& post.rng.drawn() == pre.rng.drawn() + 1
    &&& r == if post.contradiction_spec() {
        StepResult::Contradiction
    } else {
        (StepResult::Placed { x: bx as usize, y: by as usize, tile: sel as usize })
    }
}

/// What one kept step does, between pre-state, post-state and outcome.
pub open spec fn core_rel(pre: Wave, post: Wave, r: StepResult) -> bool {
    exists|bx: int, by: int, sel: int, mid: Wave|
        #[trigger] core_witness(pre, post, r, bx, by, sel, mid)
}

impl Wave {
    /// One step without rollback: select the lowest-entropy open cell,
    /// resolve it to one candidate drawn by weight from the seeded generator,
    /// and propagate to a fixed point, keeping the outcome even when a cell
    /// ran empty.
    fn step_core(&mut self) -> (r: StepResult)
        requires
            old(self).wf(),
            old(self).propagated(),
            !old(self).done_spec(),
        ensures
            final(self).wf(),
            final(self).propagated(),
            final(self).pallet == old(self).pallet,
            final(self).pallet_size == old(self).pallet_size,
            final(self).x == old(self).x,
            final(self).y == old(self).y,
            final(self).rng.seed() == old(self).rng.seed(),
            final(self).rng.drawn() == old(self).rng.drawn() + 1,
            core_rel(*old(self), *final(self), r),
            final(self).total_bits() < old(self).total_bits(),
            (r is Contradiction) == final(self).contradiction_spec(),
    {
        let (bx, by) = self.get_lowest_entropy();
        proof {
            assert(self.lowest_sel(bx as int, by as int));
            lemma_count_bounds(self.cell(bx as int, by as int), self.pallet_size as int);
        }
        let ghost pre = *self;

        // candidate weight total
        let mut total: u64 = 0;
        let mut i: usize = 0;
        while i < self.pallet_size
            invariant
                *self == pre,
                pre.wf(),
                bx < pre.x,
                by < pre.y,
                i <= pre.pallet_size,
                total == pre.weight_prefix(pre.cell(bx as int, by as int), i as int),
                total <= (i as int) * 0xffff_ffff,
            decreases self.pallet_size - i,
        {
            proof {
                assert((i as int) * 0xffff_ffff + 0xffff_ffff == (i as int + 1) * 0xffff_ffff) by (nonlinear_arith);
                assert((i as int + 1) * 0xffff_ffff <= 0xffff_ffff * 0xffff_ffff) by (nonlinear_arith)
                    requires
                        i as int + 1 <= 0xffff_ffff,
                ;
            }
            if self.wave[bx][by][i] {
                total = total + (self.pallet[i].weight as u64);
            }
            i = i + 1;
        }
        proof {
            let cand = pre.cell(bx as int, by as int);
            lemma_count_exists(cand, cand.len() as int);
            let i0 = choose|j: int| 0 <= j < cand.len() && cand[j];
            assert(pre.pallet@[i0].wf(pre.pallet_size as nat));
            lemma_weight_pos(pre, cand, pre.pallet_size as int, i0);
        }
        let draw = self.rng.next_u32();
        let rnd = (draw as u64) % total;
        proof {
            assert(self.wave == pre.wave);
            assert(forall|p: int, q: int|
                0 <= p < pre.x && 0 <= q < pre.y ==> (#[trigger] self.cell(p, q)) == pre.cell(
                    p,
                    q,
                ));
        }

        // roulette-wheel selection
        let ghost cand = pre.cell(bx as int, by as int);
        let mut acc: u64 = 0;
        let mut sel: usize = 0;
        let mut found = false;
        let mut id: usize = 0;
        while id < self.pallet_size
            invariant
                self.wf(),
                self.wave == pre.wave,
                self.pallet == pre.pallet,
                self.pallet_size == pre.pallet_size,
                self.x == pre.x,
                self.y == pre.y,
                bx < pre.x,
                by < pre.y,
                cand == pre.cell(bx as int, by as int),
                cand == self.cell(bx as int, by as int),
                id <= self.pallet_size,
                rnd < total,
                total == pre.weight_prefix(cand, pre.pallet_size as int),
                !found ==> acc == pre.weight_prefix(cand, id as int) && acc <= rnd,
                found ==> sel < id && cand[sel as int] && pre.weight_prefix(cand, sel as int)
                    <= rnd < pre.weight_prefix(cand, sel as int + 1),
            decreases self.pallet_size - id,
        {
            if !found {
                if self.wave[bx][by][id] {
                    proof {
                        lemma_weight_mono(pre, cand, id as int + 1, pre.pallet_size as int);
                        lemma_weight_nonneg(pre, cand, id as int);
                    }
                    acc = acc + (self.pallet[id].weight as u64);
                    if acc > rnd {
                        sel = id;
                        found = true;
                    }
                } else {
                    proof {
                        assert(pre.weight_prefix(cand, id as int + 1) == pre.weight_prefix(
                            cand,
                            id as int,
                        ));
                    }
                }
            }
            id = id + 1;
        }
        proof {
            if !found {
                assert(acc == total);
                assert(false);
            }
            assert(decision_of(pre, bx as int, by as int, sel as int));
        }

        // resolve the chosen cell to exactly `sel`
        let mut newcell: Vec<bool> = Vec::new();
        let mut j: usize = 0;
        while j < self.pallet_size
            invariant
                j <= self.pallet_size,
                newcell@.len() == j,
                forall|t: int| 0 <= t < j ==> (#[trigger] newcell@[t]) == (t == sel as int),
            decreases self.pallet_size - j,
        {
            newcell.push(j == sel);
            j = j + 1;
        }
        proof {
            assert(newcell@ =~= one_hot(pre.pallet_size as int, sel as int));
        }
        {
            let col = &mut self.wave[bx];
            col.set(by, newcell);
        }
        let ghost mid = *self;
        proof {
            assert(mid.cell(bx as int, by as int) == one_hot(pre.pallet_size as int, sel as int));
            assert forall|p: int, q: int|
                0 <= p < pre.x && 0 <= q < pre.y && !(p == bx && q == by) implies (
            #[trigger] mid.cell(p, q)) == pre.cell(p, q) by {
                if p != bx {
                    assert(mid.wave@[p] == pre.wave@[p]);
                }
            }
            // the resolved cell is a narrowing of what it was
            assert(narrowing_of(mid, pre));
            // some candidate is gone there, since at least two were open
            assert(mid.anyfalse(bx as int, by as int)) by {
                lemma_count_bounds(cand, cand.len() as int);
                assert(pre.pallet_size >= 2);
                let other: int = if sel == 0 {
                    1
                } else {
                    0
                };
                assert(!mid.cell(bx as int, by as int)[other]);
            }
            // every other narrowed cell still rests
            assert forall|p: int, q: int|
                mid.in_bounds(p, q) && !(p == bx && q == by) && mid.anyfalse(p, q) implies #[trigger] mid.cell_consistent(
                p,
                q,
            ) by {
                let id0 = choose|t: int| 0 <= t < mid.pallet_size && !mid.cell(p, q)[t];
                assert(!pre.cell(p, q)[id0]);
                assert(pre.anyfalse(p, q));
                assert(pre.cell_consistent(p, q));
                lemma_consistent_after_clear(pre, mid, p, q);
            }
        }
        self.propagate(bx, by);
        proof {
            // the chosen cell lost candidates, and propagation lost only more
            lemma_count_one_hot(pre.pallet_size as int, sel as int, pre.pallet_size as int);
            lemma_bits_diff(mid, pre, pre.x as int, bx as int, by as int);
            assert forall|p: int, q: int|
                0 <= p < self.x && 0 <= q < self.y implies count_true(#[trigger] self.cell(p, q))
                <= count_true(mid.cell(p, q)) by {
                lemma_count_le_pointwise(
                    self.cell(p, q),
                    mid.cell(p, q),
                    self.cell(p, q).len() as int,
                );
            }
            lemma_bits_le(*self, mid, self.x as int);
        }
        if self.is_contradiction() {
            proof {
                assert(core_witness(
                    pre,
                    *self,
                    StepResult::Contradiction,
                    bx as int,
                    by as int,
                    sel as int,
                    mid,
                ));
            }
            StepResult::Contradiction
        } else {
            proof {
                assert(core_witness(
                    pre,
                    *self,
                    (StepResult::Placed { x: bx, y: by, tile: sel }),
                    bx as int,
                    by as int,
                    sel as int,
                    mid,
                ));
            }
            StepResult::Placed { x: bx, y: by, tile: sel }
        }
    }

    /// Single-step the solver: take a snapshot, run one collapse-and-
    /// propagate attempt, and on a contradiction roll the grid back to the
    /// snapshot and report it; the next attempt then retries with a fresh
    /// draw. On success the resolved cell and tile are reported.
    pub fn step(&mut self) -> (r: StepResult)
        requires
            old(self).wf(),
            old(self).propagated(),
            !old(self).done_spec(),
        ensures
            final(self).wf(),
            final(self).propagated(),
            final(self).pallet == old(self).pallet,
            final(self).pallet_size == old(self).pallet_size,
            final(self).x == old(self).x,
            final(self).y == old(self).y,
            final(self).rng.seed() == old(self).rng.seed(),
            final(self).rng.drawn() == old(self).rng.drawn() + 1,
            step_rel(*old(self), *final(self), r),
            r is Placed ==> final(self).total_bits() < old(self).total_bits(),
            r is Contradiction ==> final(self).total_bits() == old(self).total_bits(),
            r is Contradiction ==> forall|p: int, q: int|
                0 <= p < old(self).x && 0 <= q < old(self).y ==> (#[trigger] final(self).cell(p, q))
                    == old(self).cell(p, q),
    {
        let ghost pre = *old(self);
        let snapshot = copy_grid(&self.wave);
        let r = self.step_core();
        let ghost closed = *self;
        let ghost (bx, by, sel, mid) = choose|bx: int, by: int, sel: int, mid: Wave|
            core_witness(pre, closed, r, bx, by, sel, mid);
        match r {
            StepResult::Contradiction => {
                self.wave = snapshot;
                proof {
                    assert forall|p: int, q: int|
                        0 <= p < pre.x && 0 <= q < pre.y implies (#[trigger] self.cell(p, q))
                        == pre.cell(p, q) by {
                        assert(self.wave@[p]@[q]@ == pre.wave@[p]@[q]@);
                    }
                    assert(self.wf());
                    lemma_propagated_congruence(pre, *self);
                    lemma_bits_diff(*self, pre, self.x as int, -1, -1);
                    assert(step_witness(
                        pre,
                        *self,
                        StepResult::Contradiction,
                        bx,
                        by,
                        sel,
                        mid,
                        closed,
                    ));
                }
                StepResult::Contradiction
            },
            StepResult::Placed { x, y, tile } => {
                proof {
                    assert(step_witness(
                        pre,
                        *self,
                        (StepResult::Placed { x, y, tile }),
                        bx,
                        by,
                        sel,
                        mid,
                        closed,
                    ));
                }
                StepResult::Placed { x, y, tile }
            },
        }
    }
}

/// How many consecutive rolled-back contradictions `collapse` tolerates
/// before it applies the next attempt without rollback, so that the
/// contradicted grid survives for the caller to inspect.
pub const RETRY_LIMIT: u64 = 1000;

/// One iteration of `collapse`: an attempt rolled back on contradiction
/// while retries remain, else a kept attempt; a success resets the retry
/// budget, a rolled-back contradiction spends one.
pub open spec fn attempt_rel(pre: Wave, retries: int, post: Wave, retries2: int) -> bool {
    if retries == 0 {
        (exists|r: StepResult| core_rel(pre, post, r)) && retries2 == RETRY_LIMIT as int
    } else {
        exists|r: StepResult|
            #[trigger] step_rel(pre, post, r) && retries2 == if r is Contradiction {
                retries - 1
            } else {
                RETRY_LIMIT as int
            }
    }
}

/// A run of `collapse`'s loop, recorded state by state: `trace[0]` is the
/// state at entry with the full retry budget, each later state is one
/// attempt from its predecessor with the budget threaded along, and every
/// state but the last was not yet done. With `lemma_step_deterministic`, the
/// whole run is a function of the starting state: the same pallet,
/// dimensions and seed give the same decisions and the same grids, attempt
/// by attempt.
pub open spec fn is_run(trace: Seq<Wave>, budgets: Seq<int>) -> bool {
    &&& trace.len() == budgets.len()
    &&& trace.len() >= 1
    &&& budgets[0] == RETRY_LIMIT as int
    &&& forall|i: int|
        0 < i < trace.len() ==> !(#[trigger] trace[i - 1]).done_spec() && attempt_rel(
            trace[i - 1],
            budgets[i - 1],
            trace[i],
            budgets[i],
        )
}

impl Wave {
    /// Run steps until the wave is fully collapsed, returning how many steps
    /// were taken (saturating). Each contradiction rolls the grid back and
    /// retries with a fresh draw; after `RETRY_LIMIT` consecutive
    /// contradictions the next attempt is kept instead, so a hopeless run
    /// ends in an inspectable contradiction rather than retrying forever.
    /// Check `is_contradiction` afterwards to tell success from failure.
    #[verifier::loop_isolation(false)]
    pub fn collapse(&mut self) -> (steps: usize)
        requires
            old(self).wf(),
            old(self).propagated(),
        ensures
            final(self).wf(),
            final(self).propagated(),
            final(self).done_spec(),
            final(self).pallet == old(self).pallet,
            final(self).pallet_size == old(self).pallet_size,
            final(self).x == old(self).x,
            final(self).y == old(self).y,
            final(self).rng.seed() == old(self).rng.seed(),
            old(self).done_spec() ==> *final(self) == *old(self) && steps == 0,
            !final(self).contradiction_spec() ==> forall|p: int, q: int|
                final(self).in_bounds(p, q) ==> #[trigger] final(self).cell_count(p, q) == 1,
            exists|trace: Seq<Wave>, budgets: Seq<int>|
                #[trigger] is_run(trace, budgets) && trace[0] == *old(self) && trace.last()
                    == *final(self),
    {
        let mut count: usize = 0;
        let mut retries: u64 = RETRY_LIMIT;
        let ghost mut trace: Seq<Wave> = seq![*self];
        let ghost mut budgets: Seq<int> = seq![RETRY_LIMIT as int];
        let mut done = self.is_done();
        proof {
            lemma_bits_nonneg(*self, self.x as int);
        }
        while !done
            invariant
                self.wf(),
                self.propagated(),
                done == self.done_spec(),
                self.pallet == old(self).pallet,
                self.pallet_size == old(self).pallet_size,
                self.x == old(self).x,
                self.y == old(self).y,
                self.rng.seed() == old(self).rng.seed(),
                old(self).done_spec() ==> *self == *old(self) && count == 0,
                is_run(trace, budgets),
                trace[0] == *old(self),
                trace.last() == *self,
                budgets.last() == retries as int,
            decreases self.total_bits(), retries,
        {
            let ghost it_pre = *self;
            let ghost it_retries = retries as int;
            if retries == 0 {
                let _ = self.step_core();
                retries = RETRY_LIMIT;
            } else {
                match self.step() {
                    StepResult::Placed { .. } => {
                        retries = RETRY_LIMIT;
                    },
                    StepResult::Contradiction => {
                        retries = retries - 1;
                    },
                }
            }
            proof {
                assert(attempt_rel(it_pre, it_retries, *self, retries as int));
                assert(!it_pre.done_spec());
                let ghost old_trace = trace;
                trace = trace.push(*self);
                budgets = budgets.push(retries as int);
                assert forall|i: int|
                    0 < i < trace.len() implies !(#[trigger] trace[i - 1]).done_spec()
                    && attempt_rel(trace[i - 1], budgets[i - 1], trace[i], budgets[i]) by {
                    if i < trace.len() - 1 {
                        assert(trace[i - 1] == old_trace[i - 1]);
                        assert(trace[i] == old_trace[i]);
                    } else {
                        assert(trace[i - 1] == it_pre);
                        assert(trace[i] == *self);
                    }
                }
            }
            if count < usize::MAX {
                count = count + 1;
            }
            done = self.is_done();
            proof {
                lemma_bits_nonneg(*self, self.x as int);
            }
        }
        proof {
            if !self.contradiction_spec() {
                assert forall|p: int, q: int| self.in_bounds(p, q) implies #[trigger] self.cell_count(
                    p,
                    q,
                ) == 1 by {
                    lemma_count_bounds(self.cell(p, q), self.cell(p, q).len() as int);
                    if self.cell_count(p, q) == 0 {
                        assert(self.contradiction_spec());
                    }
                }
            }
        }
        count
    }

    /// `collapse`, reported as a 32-bit step count (saturating).
    pub fn colapse(&mut self) -> (steps: u32)
        requires
            old(self).wf(),
            old(self).propagated(),
        ensures
            final(self).wf(),
            final(self).propagated(),
            final(self).done_spec(),
            final(self).pallet == old(self).pallet,
            final(self).pallet_size == old(self).pallet_size,
            final(self).x == old(self).x,
            final(self).y == old(self).y,
            final(self).rng.seed() == old(self).rng.seed(),
            old(self).done_spec() ==> *final(self) == *old(self) && steps == 0,
            !final(self).contradiction_spec() ==> forall|p: int, q: int|
                final(self).in_bounds(p, q) ==> #[trigger] final(self).cell_count(p, q) == 1,
            exists|trace: Seq<Wave>, budgets: Seq<int>|
                #[trigger] is_run(trace, budgets) && trace[0] == *old(self) && trace.last()
                    == *final(self),
    {
        let s = self.collapse();
        if s > 0xffff_ffff {
            0xffff_ffff
        } else {
            s as u32
        }
    }

    /// The tile id a resolved cell holds: `Some(id)` exactly when one
    /// candidate remains at `(x, y)`, and `None` both for a contradicted
    /// (zero-candidate) and a still-open (multi-candidate) cell.
    pub fn get_collapsed_tile(&self, x: usize, y: usize) -> (r: Option<usize>)
        requires
            self.wf(),
            x < self.x,
            y < self.y,
        ensures
            match r {
                Some(id) => self.cell_count(x as int, y as int) == 1 && id < self.pallet_size
                    && self.cell(x as int, y as int)[id as int],
                None => self.cell_count(x as int, y as int) != 1,
            },
    {
        let cell = &self.wave[x];
        let cell = &cell[y];
        proof {
            assert(cell@ == self.cell(x as int, y as int));
            assert(self.cell(x as int, y as int).len() == self.pallet_size);
        }
        let mut allowed: usize = 0;
        let mut collapsed_idx: usize = 0;
        let mut idx: usize = 0;
        while idx < cell.len()
            invariant
                cell@ == self.cell(x as int, y as int),
                cell@.len() == self.pallet_size,
                idx <= cell@.len(),
                allowed == count_prefix(cell@, idx as int),
                allowed <= idx,
                allowed >= 1 ==> collapsed_idx < idx && cell@[collapsed_idx as int],
            decreases cell@.len() - idx,
        {
            if cell[idx] {
                collapsed_idx = idx;
                allowed = allowed + 1;
            }
            idx = idx + 1;
        }
        if allowed == 1 {
            Some(collapsed_idx)
        } else {
            None
        }
    }

    /// `get_collapsed_tile` under its older name.
    pub fn get_colapsed_tile(&self, x: usize, y: usize) -> (r: Option<usize>)
        requires
            self.wf(),
            x < self.x,
            y < self.y,
        ensures
            match r {
                Some(id) => self.cell_count(x as int, y as int) == 1 && id < self.pallet_size
                    && self.cell(x as int, y as int)[id as int],
                None => self.cell_count(x as int, y as int) != 1,
            },
    {
        self.get_collapsed_tile(x, y)
    }

    /// The grid of resolved tile ids: `Some` exactly when every cell is
    /// resolved to one candidate.
    pub fn get_collapsed_vec(&self) -> (r: Option<Vec<Vec<usize>>>)
        requires
            self.wf(),
        ensures
            match r {
                Some(v) => {
                    &&& v@.len() == self.x
                    &&& forall|i: int| 0 <= i < self.x ==> (#[trigger] v@[i]@).len() == self.y
                    &&& forall|i: int, j: int|
                        0 <= i < self.x && 0 <= j < self.y ==> #[trigger] self.cell_count(i, j)
                            == 1
                    &&& forall|i: int, j: int|
                        0 <= i < self.x && 0 <= j < self.y ==> (#[trigger] v@[i]@[j])
                            < self.pallet_size && self.cell(i, j)[v@[i]@[j] as int]
                },
                None => !(forall|i: int, j: int|
                    0 <= i < self.x && 0 <= j < self.y ==> #[trigger] self.cell_count(i, j) == 1),
            },
    {
        let mut buf: Vec<Vec<usize>> = Vec::new();
        let mut x: usize = 0;
        while x < self.x
            invariant
                self.wf(),
                x <= self.x,
                buf@.len() == x,
                forall|i: int| 0 <= i < x ==> (#[trigger] buf@[i]@).len() == self.y,
                forall|i: int, j: int|
                    0 <= i < x && 0 <= j < self.y ==> #[trigger] self.cell_count(i, j) == 1,
                forall|i: int, j: int|
                    0 <= i < x && 0 <= j < self.y ==> (#[trigger] buf@[i]@[j]) < self.pallet_size
                        && self.cell(i, j)[buf@[i]@[j] as int],
            decreases self.x - x,
        {
            let mut col_buf: Vec<usize> = Vec::new();
            let mut y: usize = 0;
            while y < self.y
                invariant
                    self.wf(),
                    x < self.x,
                    y <= self.y,
                    col_buf@.len() == y,
                    forall|j: int| 0 <= j < y ==> #[trigger] self.cell_count(x as int, j) == 1,
                    forall|j: int|
                        0 <= j < y ==> (#[trigger] col_buf@[j]) < self.pallet_size && self.cell(
                            x as int,
                            j,
                        )[col_buf@[j] as int],
                decreases self.y - y,
            {
                let ghost prev = col_buf@;
                match self.get_collapsed_tile(x, y) {
                    Some(id) => {
                        col_buf.push(id);
                        proof {
                            assert forall|j: int|
                                0 <= j < y + 1 implies (#[trigger] col_buf@[j]) < self.pallet_size
                                && self.cell(x as int, j)[col_buf@[j] as int] by {
                                if j < y {
                                    assert(col_buf@[j] == prev[j]);
                                    assert(prev[j] < self.pallet_size && self.cell(
                                        x as int,
                                        j,
                                    )[prev[j] as int]);
                                }
                            }
                        }
                    },
                    None => {
                        proof {
                            assert(self.cell_count(x as int, y as int) != 1);
                        }
                        return None;
                    },
                }
                y = y + 1;
            }
            let ghost prev_buf = buf@;
            buf.push(col_buf);
            proof {
                assert forall|i: int, j: int|
                    0 <= i < x + 1 && 0 <= j < self.y implies (#[trigger] buf@[i]@[j])
                    < self.pallet_size && self.cell(i, j)[buf@[i]@[j] as int] by {
                    if i < x {
                        assert(buf@[i] == prev_buf[i]);
                        assert(prev_buf[i]@[j] < self.pallet_size && self.cell(
                            i,
                            j,
                        )[prev_buf[i]@[j] as int]);
                    } else {
                        assert(buf@[i] == col_buf);
                        assert(col_buf@[j] < self.pallet_size && self.cell(i, j)[col_buf@[j] as int]);
                    }
                }
            }
            x = x + 1;
        }
        Some(buf)
    }

    /// `d` is the payload of some tile still possible at `(x, y)`; with one
    /// candidate left, that is the resolved tile's payload.
    pub open spec fn resolved_payload_ok(&self, x: int, y: int, d: u32) -> bool {
        exists|id: int|
            0 <= id < self.pallet_size && self.cell(x, y)[id] && d == (
            #[trigger] self.pallet@[id]).additional
    }

    /// The grid of resolved payload values: for each cell the `additional`
    /// value of its resolved tile; `Some` exactly when every cell is
    /// resolved.
    pub fn get_collapsed_data(&self) -> (r: Option<Vec<Vec<u32>>>)
        requires
            self.wf(),
        ensures
            match r {
                Some(v) => {
                    &&& v@.len() == self.x
                    &&& forall|i: int| 0 <= i < self.x ==> (#[trigger] v@[i]@).len() == self.y
                    &&& forall|i: int, j: int|
                        0 <= i < self.x && 0 <= j < self.y ==> #[trigger] self.cell_count(i, j)
                            == 1
                    &&& forall|i: int, j: int|
                        0 <= i < self.x && 0 <= j < self.y ==> self.resolved_payload_ok(
                            i,
                            j,
                            #[trigger] v@[i]@[j],
                        )
                },
                None => !(forall|i: int, j: int|
                    0 <= i < self.x && 0 <= j < self.y ==> #[trigger] self.cell_count(i, j) == 1),
            },
    {
        let mut buf: Vec<Vec<u32>> = Vec::new();
        let mut x: usize = 0;
        while x < self.x
            invariant
                self.wf(),
                x <= self.x,
                buf@.len() == x,
                forall|i: int| 0 <= i < x ==> (#[trigger] buf@[i]@).len() == self.y,
                forall|i: int, j: int|
                    0 <= i < x && 0 <= j < self.y ==> #[trigger] self.cell_count(i, j) == 1,
                forall|i: int, j: int|
                    0 <= i < x && 0 <= j < self.y ==> self.resolved_payload_ok(
                        i,
                        j,
                        #[trigger] buf@[i]@[j],
                    ),
            decreases self.x - x,
        {
            let mut col_buf: Vec<u32> = Vec::new();
            let mut y: usize = 0;
            while y < self.y
                invariant
                    self.wf(),
                    x < self.x,
                    y <= self.y,
                    col_buf@.len() == y,
                    forall|j: int| 0 <= j < y ==> #[trigger] self.cell_count(x as int, j) == 1,
                    forall|j: int|
                        0 <= j < y ==> self.resolved_payload_ok(
                            x as int,
                            j,
                            #[trigger] col_buf@[j],
                        ),
                decreases self.y - y,
            {
                let ghost prev = col_buf@;
                match self.get_collapsed_tile(x, y) {
                    Some(id) => {
                        let data = self.pallet[id].additional;
                        col_buf.push(data);
                        proof {
                            assert forall|j: int| 0 <= j < y + 1 implies self.resolved_payload_ok(
                                x as int,
                                j,
                                #[trigger] col_buf@[j],
                            ) by {
                                if j < y {
                                    assert(col_buf@[j] == prev[j]);
                                    assert(self.resolved_payload_ok(x as int, j, prev[j]));
                                } else {
                                    assert(0 <= id < self.pallet_size && self.cell(
                                        x as int,
                                        j,
                                    )[id as int] && col_buf@[j] == (
                                    #[trigger] self.pallet@[id as int]).additional);
                                }
                            }
                        }
                    },
                    None => {
                        proof {
                            assert(self.cell_count(x as int, y as int) != 1);
                        }
                        return None;
                    },
                }
                y = y + 1;
            }
            let ghost prev_buf = buf@;
            buf.push(col_buf);
            proof {
                assert forall|i: int, j: int|
                    0 <= i < x + 1 && 0 <= j < self.y implies self.resolved_payload_ok(
                    i,
                    j,
                    #[trigger] buf@[i]@[j],
                ) by {
                    if i < x {
                        assert(buf@[i] == prev_buf[i]);
                        assert(self.resolved_payload_ok(i, j, prev_buf[i]@[j]));
                    } else {
                        assert(buf@[i] == col_buf);
                        assert(self.resolved_payload_ok(i, j, col_buf@[j]));
                    }
                }
            }
            x = x + 1;
        }
        Some(buf)
    }
}

/// A prefix of all-`true` bits counts its full length.
pub proof fn lemma_count_all_true(s: Seq<bool>, n: int)
    requires
        0 <= n,
        forall|i: int| 0 <= i < n ==> s[i],
    ensures
        count_prefix(s, n) == n,
    decreases n,
{
    if n > 0 {
        lemma_count_all_true(s, n - 1);
    }
}

/// Global consistency of a collapsed grid: in a propagated wave over at
/// least two tiles, any two resolved cells within kernel range hold mutually
/// compatible tiles under their masks — the consistency is global, not only
/// where the last step touched.
pub proof fn lemma_collapsed_adjacent_compatible(
    w: Wave,
    x: int,
    y: int,
    ox: int,
    oy: int,
    a: int,
    b: int,
)
    requires
        w.wf(),
        w.propagated(),
        w.pallet_size >= 2,
        w.in_bounds(x, y),
        0 <= ox < w.kernel(),
        0 <= oy < w.kernel(),
        w.in_bounds(x + ox - w.center(), y + oy - w.center()),
        w.cell_count(x, y) == 1,
        w.cell_count(x + ox - w.center(), y + oy - w.center()) == 1,
        0 <= a < w.pallet_size,
        w.cell(x, y)[a],
        0 <= b < w.pallet_size,
        w.cell(x + ox - w.center(), y + oy - w.center())[b],
    ensures
        !w.pallet@[a].forbids(ox, oy, b),
        !w.pallet@[b].forbids(w.kernel() - 1 - ox, w.kernel() - 1 - oy, a),
{
    let nx = x + ox - w.center();
    let ny = y + oy - w.center();
    assert(w.anyfalse(x, y)) by {
        if !w.anyfalse(x, y) {
            assert(forall|i: int| 0 <= i < w.pallet_size ==> #[trigger] w.cell(x, y)[i]);
            lemma_count_all_true(w.cell(x, y), w.pallet_size as int);
        }
    }
    assert(w.anyfalse(nx, ny)) by {
        if !w.anyfalse(nx, ny) {
            assert(forall|i: int| 0 <= i < w.pallet_size ==> #[trigger] w.cell(nx, ny)[i]);
            lemma_count_all_true(w.cell(nx, ny), w.pallet_size as int);
        }
    }
    if w.pallet@[a].forbids(ox, oy, b) {
        assert forall|t: int| 0 <= t < w.pallet_size && w.cell(x, y)[t] implies (
        #[trigger] w.pallet@[t]).forbids(ox, oy, b) by {
            lemma_count_unique(w.cell(x, y), w.pallet_size as int, t, a);
        }
        assert(w.group_forbids(x, y, ox, oy, b));
        assert(w.cell_consistent(x, y));
        assert(!w.cell(nx, ny)[b]);
    }
    let rx = w.kernel() - 1 - ox;
    let ry = w.kernel() - 1 - oy;
    assert(nx + rx - w.center() == x);
    assert(ny + ry - w.center() == y);
    if w.pallet@[b].forbids(rx, ry, a) {
        assert forall|t: int| 0 <= t < w.pallet_size && w.cell(nx, ny)[t] implies (
        #[trigger] w.pallet@[t]).forbids(rx, ry, a) by {
            lemma_count_unique(w.cell(nx, ny), w.pallet_size as int, t, b);
        }
        assert(w.group_forbids(nx, ny, rx, ry, a));
        assert(w.cell_consistent(nx, ny));
        assert(!w.cell(x, y)[a]);
    }
}

/// Determinism: what a step does is a function of the pre-step state alone,
/// so runs over the same pallet, dimensions and seed make identical
/// decisions and leave identical grids, draw after draw.
pub proof fn lemma_step_deterministic(
    pre: Wave,
    p1: Wave,
    r1: StepResult,
    p2: Wave,
    r2: StepResult,
)
    requires
        pre.wf(),
        step_rel(pre, p1, r1),
        step_rel(pre, p2, r2),
    ensures
        r1 == r2,
        same_shape(p1, p2),
        p1.rng.seed() == p2.rng.seed(),
        p1.rng.drawn() == p2.rng.drawn(),
        forall|p: int, q: int|
            0 <= p < pre.x && 0 <= q < pre.y ==> #[trigger] p1.cell(p, q) == p2.cell(p, q),
{
    let (bx1, by1, sel1, mid1, c1) = choose|bx: int, by: int, sel: int, mid: Wave, closed: Wave|
        #[trigger] step_witness(pre, p1, r1, bx, by, sel, mid, closed);
    let (bx2, by2, sel2, mid2, c2) = choose|bx: int, by: int, sel: int, mid: Wave, closed: Wave|
        #[trigger] step_witness(pre, p2, r2, bx, by, sel, mid, closed);
    assert(step_witness(pre, p1, r1, bx1, by1, sel1, mid1, c1));
    assert(step_witness(pre, p2, r2, bx2, by2, sel2, mid2, c2));

    // same cell selected
    lemma_lowest_unique(pre, bx1, by1, bx2, by2);
    // same tile drawn
    lemma_selection_unique(
        pre,
        pre.cell(bx1, by1),
        (stream_u32(pre.rng.seed(), pre.rng.drawn()) as int) % pre.total_weight(bx1, by1),
        sel1,
        sel2,
    );

    // same grid after resolving the cell
    assert forall|p: int, q: int|
        0 <= p < mid1.x && 0 <= q < mid1.y implies #[trigger] mid1.cell(p, q) == mid2.cell(
        p,
        q,
    ) by {
        if !(p == bx1 && q == by1) {
            assert(mid1.cell(p, q) == pre.cell(p, q));
            assert(mid2.cell(p, q) == pre.cell(p, q));
        }
    }
    assert forall|p: int, q: int|
        0 <= p < mid1.x && 0 <= q < mid1.y implies (#[trigger] mid1.cell(p, q)).len()
        == mid1.pallet_size by {
        if !(p == bx1 && q == by1) {
            assert(mid1.cell(p, q) == pre.cell(p, q));
        }
    }
    // same propagation closure
    lemma_closure_unique(mid1, c1, mid2, c2);
    // so the same outcome is reported
    assert(c1.contradiction_spec() == c2.contradiction_spec()) by {
        if c1.contradiction_spec() {
            let (p0, q0) = choose|p: int, q: int|
                c1.in_bounds(p, q) && #[trigger] c1.cell_count(p, q) == 0;
            assert(c2.cell_count(p0, q0) == 0);
        }
        if c2.contradiction_spec() {
            let (p0, q0) = choose|p: int, q: int|
                c2.in_bounds(p, q) && #[trigger] c2.cell_count(p, q) == 0;
            assert(c1.cell_count(p0, q0) == 0);
        }
    }
    assert forall|p: int, q: int|
        0 <= p < pre.x && 0 <= q < pre.y implies #[trigger] p1.cell(p, q) == p2.cell(p, q) by {
        if c1.contradiction_spec() {
            assert(p1.cell(p, q) == pre.cell(p, q));
            assert(p2.cell(p, q) == pre.cell(p, q));
        } else {
            assert(p1.cell(p, q) == c1.cell(p, q));
            assert(p2.cell(p, q) == c2.cell(p, q));
        }
    }
}

/// Determinism of a kept (non-rolled-back) attempt: the same pre-state gives
/// the same outcome and the same grid.
pub proof fn lemma_core_deterministic(
    pre: Wave,
    p1: Wave,
    r1: StepResult,
    p2: Wave,
    r2: StepResult,
)
    requires
        pre.wf(),
        core_rel(pre, p1, r1),
        core_rel(pre, p2, r2),
    ensures
        r1 == r2,
        same_shape(p1, p2),
        p1.rng.seed() == p2.rng.seed(),
        p1.rng.drawn() == p2.rng.drawn(),
        forall|p: int, q: int|
            0 <= p < pre.x && 0 <= q < pre.y ==> #[trigger] p1.cell(p, q) == p2.cell(p, q),
{
    let (bx1, by1, sel1, mid1) = choose|bx: int, by: int, sel: int, mid: Wave|
        #[trigger] core_witness(pre, p1, r1, bx, by, sel, mid);
    let (bx2, by2, sel2, mid2) = choose|bx: int, by: int, sel: int, mid: Wave|
        #[trigger] core_witness(pre, p2, r2, bx, by, sel, mid);
    assert(core_witness(pre, p1, r1, bx1, by1, sel1, mid1));
    assert(core_witness(pre, p2, r2, bx2, by2, sel2, mid2));
    lemma_lowest_unique(pre, bx1, by1, bx2, by2);
    lemma_selection_unique(
        pre,
        pre.cell(bx1, by1),
        (stream_u32(pre.rng.seed(), pre.rng.drawn()) as int) % pre.total_weight(bx1, by1),
        sel1,
        sel2,
    );
    assert forall|p: int, q: int|
        0 <= p < mid1.x && 0 <= q < mid1.y implies #[trigger] mid1.cell(p, q) == mid2.cell(
        p,
        q,
    ) by {
        if !(p == bx1 && q == by1) {
            assert(mid1.cell(p, q) == pre.cell(p, q));
            assert(mid2.cell(p, q) == pre.cell(p, q));
        }
    }
    assert forall|p: int, q: int|
        0 <= p < mid1.x && 0 <= q < mid1.y implies (#[trigger] mid1.cell(p, q)).len()
        == mid1.pallet_size by {
        if !(p == bx1 && q == by1) {
            assert(mid1.cell(p, q) == pre.cell(p, q));
        }
    }
    lemma_closure_unique(mid1, p1, mid2, p2);
    assert(p1.contradiction_spec() == p2.contradiction_spec()) by {
        if p1.contradiction_spec() {
            let (p0, q0) = choose|p: int, q: int|
                p1.in_bounds(p, q) && #[trigger] p1.cell_count(p, q) == 0;
            assert(p2.cell_count(p0, q0) == 0);
        }
        if p2.contradiction_spec() {
            let (p0, q0) = choose|p: int, q: int|
                p2.in_bounds(p, q) && #[trigger] p2.cell_count(p, q) == 0;
            assert(p1.cell_count(p0, q0) == 0);
        }
    }
}

/// Determinism of one `collapse` iteration: from the same state with the
/// same retry budget, both runs take the same attempt, leave equal grids,
/// and keep equal budgets. Chained along `is_run`, two runs from one
/// starting state agree attempt by attempt.
pub proof fn lemma_attempt_deterministic(
    pre: Wave,
    r0: int,
    p1: Wave,
    r1: int,
    p2: Wave,
    r2: int,
)
    requires
        pre.wf(),
        attempt_rel(pre, r0, p1, r1),
        attempt_rel(pre, r0, p2, r2),
    ensures
        r1 == r2,
        same_shape(p1, p2),
        p1.rng.seed() == p2.rng.seed(),
        p1.rng.drawn() == p2.rng.drawn(),
        forall|p: int, q: int|
            0 <= p < pre.x && 0 <= q < pre.y ==> #[trigger] p1.cell(p, q) == p2.cell(p, q),
{
    if r0 == 0 {
        let ra = choose|r: StepResult| core_rel(pre, p1, r);
        let rb = choose|r: StepResult| core_rel(pre, p2, r);
        lemma_core_deterministic(pre, p1, ra, p2, rb);
    } else {
        let ra = choose|r: StepResult|
            #[trigger] step_rel(pre, p1, r) && r1 == if r is Contradiction {
                r0 - 1
            } else {
                RETRY_LIMIT as int
            };
        let rb = choose|r: StepResult|
            #[trigger] step_rel(pre, p2, r) && r2 == if r is Contradiction {
                r0 - 1
            } else {
                RETRY_LIMIT as int
            };
        lemma_step_deterministic(pre, p1, ra, p2, rb);
    }
}

} // verus!
