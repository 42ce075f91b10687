use vstd::prelude::*;

verus! {

/// One tile type of a pallet: its selection weight, the caller's payload
/// value, and the adjacency mask over a `k`-by-`k` kernel of relative
/// offsets, stored flat: row `ox * k + oy` holds, for every tile id, whether
/// that id is forbidden at offset `(ox - k/2, oy - k/2)` from this tile.
pub struct Tile {
    /// Relative selection frequency; must stay positive.
    pub weight: u32,
    /// Caller-defined payload, such as a pixel value.
    pub additional: u32,
    /// Kernel diameter; odd.
    pub k: usize,
    /// Flat mask: `k * k` rows of one `bool` per tile id; `true` = forbidden.
    pub mask: Vec<Vec<bool>>,
}

impl Tile {
    /// Mask entry for kernel position `(ox, oy)` (offsets `ox - k/2`,
    /// `oy - k/2`): `true` means the tile with this id is forbidden there.
    pub open spec fn forbids(&self, ox: int, oy: int, id: int) -> bool {
        self.mask@[ox * (self.k as int) + oy]@[id]
    }

    /// Mask shape relative to a pallet of `size` tiles.
    pub open spec fn shaped(&self, size: nat) -> bool {
        &&& self.k % 2 == 1
        &&& 1 <= self.k <= 0xffff
        &&& self.mask@.len() == (self.k as int) * (self.k as int)
        &&& forall|i: int| 0 <= i < self.mask@.len() ==> (#[trigger] self.mask@[i]@.len()) == size
    }

    /// Shape invariant relative to a pallet of `size` tiles.
    pub open spec fn wf(&self, size: nat) -> bool {
        &&& self.shaped(size)
        &&& 1 <= self.weight
    }

    /// The pallet size the mask rows are sized for.
    pub open spec fn size_spec(&self) -> nat {
        self.mask@[0]@.len()
    }

    /// The kernel position of the zero offset.
    pub open spec fn center(&self) -> int {
        (self.k as int) / 2
    }

    /// The four orthogonal unit offsets around the center.
    pub open spec fn is_direct(&self, ox: int, oy: int) -> bool {
        ||| (ox == self.center() - 1 && oy == self.center())
        ||| (ox == self.center() + 1 && oy == self.center())
        ||| (ox == self.center() && oy == self.center() - 1)
        ||| (ox == self.center() && oy == self.center() + 1)
    }
}

/// A kernel position `(ox, oy)` with both coordinates below `k` names a flat
/// row index below `k * k`.
pub proof fn lemma_offset_row(k: int, ox: int, oy: int)
    by (nonlinear_arith)
    requires
        0 <= ox < k,
        0 <= oy < k,
    ensures
        0 <= ox * k + oy < k * k,
{
}

/// Distinct kernel positions name distinct flat rows.
pub proof fn lemma_offset_row_injective(k: int, ox1: int, oy1: int, ox2: int, oy2: int)
    by (nonlinear_arith)
    requires
        0 <= ox1 < k,
        0 <= oy1 < k,
        0 <= ox2 < k,
        0 <= oy2 < k,
    ensures
        (ox1 * k + oy1 == ox2 * k + oy2) <==> (ox1 == ox2 && oy1 == oy2),
{
}

/// One mask row: a copy of `value` for each of `size` tile ids.
fn fill_row(size: usize, value: bool) -> (row: Vec<bool>)
    ensures
        row@.len() == size,
        forall|q: int| 0 <= q < size ==> (#[trigger] row@[q]) == value,
{
    let mut row: Vec<bool> = Vec::new();
    let mut j: usize = 0;
    while j < size
        invariant
            j <= size,
            row@.len() == j,
            forall|q: int| 0 <= q < j ==> (#[trigger] row@[q]) == value,
        decreases size - j,
    {
        row.push(value);
        j = j + 1;
    }
    row
}

/// A mask of `k * k` rows, each with one copy of `value` per tile id.
pub(crate) fn fill_mask(k: usize, size: usize, value: bool) -> (m: Vec<Vec<bool>>)
    requires
        k <= 0xffff,
    ensures
        m@.len() == (k as int) * (k as int),
        forall|i: int| 0 <= i < m@.len() ==> (#[trigger] m@[i]@).len() == size,
        forall|i: int, j: int| 0 <= i < m@.len() && 0 <= j < size ==> (#[trigger] m@[i]@[j]) == value,
{
    proof {
        assert((k as int) * (k as int) <= 0xffff * 0xffff) by (nonlinear_arith)
            requires
                k <= 0xffff,
        ;
    }
    let rows: usize = k * k;
    let mut m: Vec<Vec<bool>> = Vec::new();
    let mut i: usize = 0;
    while i < rows
        invariant
            i <= rows,
            rows == (k as int) * (k as int),
            m@.len() == i,
            forall|p: int| 0 <= p < i ==> (#[trigger] m@[p]@).len() == size,
            forall|p: int, j: int| 0 <= p < i && 0 <= j < size ==> (#[trigger] m@[p]@[j]) == value,
        decreases rows - i,
    {
        let row = fill_row(size, value);
        m.push(row);
        i = i + 1;
    }
    m
}

impl Tile {
    /// A tile of weight 1 whose mask forbids nothing anywhere.
    pub fn allow_all(k: usize, size: usize, additional: u32) -> (t: Tile)
        requires
            k % 2 == 1,
            1 <= k <= 0xffff,
            1 <= size,
        ensures
            t.wf(size as nat),
            t.k == k,
            t.weight == 1,
            t.additional == additional,
            forall|ox: int, oy: int, id: int|
                0 <= ox < k && 0 <= oy < k && 0 <= id < size ==> !#[trigger] t.forbids(ox, oy, id),
    {
        let mask = fill_mask(k, size, false);
        let t = Tile { weight: 1, additional, k, mask };
        proof {
            assert forall|ox: int, oy: int, id: int|
                0 <= ox < k && 0 <= oy < k && 0 <= id < size implies !#[trigger] t.forbids(
                ox,
                oy,
                id,
            ) by {
                lemma_offset_row(k as int, ox, oy);
            }
        }
        t
    }

    /// A tile of weight 1 whose mask forbids every tile at every offset; the
    /// synthesizer starts from this and selectively clears entries.
    pub fn disallow_all(k: usize, size: usize, additional: u32) -> (t: Tile)
        requires
            k % 2 == 1,
            1 <= k <= 0xffff,
            1 <= size,
        ensures
            t.wf(size as nat),
            t.k == k,
            t.weight == 1,
            t.additional == additional,
            forall|ox: int, oy: int, id: int|
                0 <= ox < k && 0 <= oy < k && 0 <= id < size ==> #[trigger] t.forbids(ox, oy, id),
    {
        let mask = fill_mask(k, size, true);
        let t = Tile { weight: 1, additional, k, mask };
        proof {
            assert forall|ox: int, oy: int, id: int|
                0 <= ox < k && 0 <= oy < k && 0 <= id < size implies #[trigger] t.forbids(
                ox,
                oy,
                id,
            ) by {
                lemma_offset_row(k as int, ox, oy);
            }
        }
        t
    }

    /// Forbid the tile `id` at every kernel offset, the zero offset included:
    /// full mutual exclusion regardless of direction.
    pub fn disallow(&mut self, id: usize)
        requires
            old(self).shaped(old(self).size_spec()),
            id < old(self).size_spec(),
        ensures
            final(self).shaped(old(self).size_spec()),
            final(self).k == old(self).k,
            final(self).weight == old(self).weight,
            final(self).additional == old(self).additional,
            forall|i: int|
                0 <= i < old(self).mask@.len() ==> (#[trigger] final(self).mask@[i]@) == old(
                    self,
                ).mask@[i]@.update(id as int, true),
            forall|ox: int, oy: int, j: int|
                0 <= ox < old(self).k && 0 <= oy < old(self).k && 0 <= j < old(self).size_spec()
                    ==> (#[trigger] final(self).forbids(ox, oy, j)) == (old(self).forbids(ox, oy, j)
                    || j == id),
    {
        let rows: usize = self.mask.len();
        let mut i: usize = 0;
        while i < rows
            invariant
                i <= rows,
                rows == self.mask@.len(),
                self.shaped(old(self).size_spec()),
                id < old(self).size_spec(),
                self.k == old(self).k,
                self.weight == old(self).weight,
                self.additional == old(self).additional,
                self.mask@.len() == old(self).mask@.len(),
                forall|p: int|
                    0 <= p < i ==> (#[trigger] self.mask@[p]@) == old(self).mask@[p]@.update(
                        id as int,
                        true,
                    ),
                forall|p: int| i <= p < rows ==> (#[trigger] self.mask@[p]@) == old(self).mask@[p]@,
            decreases rows - i,
        {
            let row = &mut self.mask[i];
            row.set(id, true);
            i = i + 1;
        }
        proof {
            assert forall|ox: int, oy: int, j: int|
                0 <= ox < old(self).k && 0 <= oy < old(self).k && 0 <= j < old(self).size_spec()
                    implies (#[trigger] self.forbids(ox, oy, j)) == (old(self).forbids(ox, oy, j)
                || j == id) by {
                lemma_offset_row(old(self).k as int, ox, oy);
            }
        }
    }

    /// Forbid the tile `id` at the four orthogonal unit offsets only, leaving
    /// diagonal and farther offsets untouched.
    pub fn disallow_direct(&mut self, id: usize)
        requires
            old(self).shaped(old(self).size_spec()),
            old(self).k >= 3,
            id < old(self).size_spec(),
        ensures
            final(self).shaped(old(self).size_spec()),
            final(self).k == old(self).k,
            final(self).weight == old(self).weight,
            final(self).additional == old(self).additional,
            forall|ox: int, oy: int, j: int|
                0 <= ox < old(self).k && 0 <= oy < old(self).k && 0 <= j < old(self).size_spec()
                    ==> (#[trigger] final(self).forbids(ox, oy, j)) == (old(self).forbids(ox, oy, j)
                    || (j == id && old(self).is_direct(ox, oy))),
    {
        let k = self.k;
        let c = k / 2;
        proof {
            let ki = k as int;
            let ci = ki / 2;
            assert(ki * ki <= 0xffff * 0xffff) by (nonlinear_arith)
                requires
                    0 <= ki <= 0xffff,
            ;
            assert(1 <= ci && ci + 1 < ki);
            lemma_offset_row(ki, ci - 1, ci);
            lemma_offset_row(ki, ci + 1, ci);
            lemma_offset_row(ki, ci, ci - 1);
            lemma_offset_row(ki, ci, ci + 1);
        }
        let row = &mut self.mask[(c - 1) * k + c];
        row.set(id, true);
        let row = &mut self.mask[(c + 1) * k + c];
        row.set(id, true);
        let row = &mut self.mask[c * k + (c - 1)];
        row.set(id, true);
        let row = &mut self.mask[c * k + (c + 1)];
        row.set(id, true);
        proof {
            assert forall|ox: int, oy: int, j: int|
                0 <= ox < old(self).k && 0 <= oy < old(self).k && 0 <= j < old(self).size_spec()
                    implies (#[trigger] self.forbids(ox, oy, j)) == (old(self).forbids(ox, oy, j)
                || (j == id && old(self).is_direct(ox, oy))) by {
                let ki = old(self).k as int;
                let ci = ki / 2;
                lemma_offset_row(ki, ox, oy);
                lemma_offset_row_injective(ki, ox, oy, ci - 1, ci);
                lemma_offset_row_injective(ki, ox, oy, ci + 1, ci);
                lemma_offset_row_injective(ki, ox, oy, ci, ci - 1);
                lemma_offset_row_injective(ki, ox, oy, ci, ci + 1);
            }
        }
    }

    /// Clear one mask entry: stop forbidding the tile `id` at kernel
    /// position `(ox, oy)`.
    pub fn allow(&mut self, ox: usize, oy: usize, id: usize)
        requires
            old(self).shaped(old(self).size_spec()),
            ox < old(self).k,
            oy < old(self).k,
            id < old(self).size_spec(),
        ensures
            final(self).shaped(old(self).size_spec()),
            final(self).k == old(self).k,
            final(self).weight == old(self).weight,
            final(self).additional == old(self).additional,
            forall|a: int, b: int, j: int|
                0 <= a < old(self).k && 0 <= b < old(self).k && 0 <= j < old(self).size_spec()
                    ==> (#[trigger] final(self).forbids(a, b, j)) == (old(self).forbids(a, b, j)
                    && !(a == ox && b == oy && j == id)),
    {
        let k = self.k;
        proof {
            assert((k as int) * (k as int) <= 0xffff * 0xffff) by (nonlinear_arith)
                requires
                    0 <= k <= 0xffff,
            ;
            lemma_offset_row(k as int, ox as int, oy as int);
        }
        let row = &mut self.mask[ox * k + oy];
        row.set(id, false);
        proof {
            assert forall|a: int, b: int, j: int|
                0 <= a < old(self).k && 0 <= b < old(self).k && 0 <= j < old(self).size_spec()
                    implies (#[trigger] self.forbids(a, b, j)) == (old(self).forbids(a, b, j) && !(a
                == ox && b == oy && j == id)) by {
                lemma_offset_row(k as int, a, b);
                lemma_offset_row_injective(k as int, a, b, ox as int, oy as int);
            }
        }
    }

    /// Clear the zero-offset mask entry for every tile id, so that this tile
    /// may coexist with any tile at zero displacement; every other offset is
    /// left untouched.
    pub fn allow_center(&mut self)
        requires
            old(self).shaped(old(self).size_spec()),
        ensures
            final(self).shaped(old(self).size_spec()),
            final(self).k == old(self).k,
            final(self).weight == old(self).weight,
            final(self).additional == old(self).additional,
            forall|ox: int, oy: int, j: int|
                0 <= ox < old(self).k && 0 <= oy < old(self).k && 0 <= j < old(self).size_spec()
                    ==> (#[trigger] final(self).forbids(ox, oy, j)) == (old(self).forbids(ox, oy, j)
                    && !(ox == old(self).center() && oy == old(self).center())),
    {
        let k = self.k;
        let c = k / 2;
        proof {
            let ki = k as int;
            let ci = ki / 2;
            assert(ki * ki <= 0xffff * 0xffff) by (nonlinear_arith)
                requires
                    0 <= ki <= 0xffff,
            ;
            lemma_offset_row(ki, ci, ci);
        }
        let size = self.mask[0].len();
        let row = fill_row(size, false);
        self.mask.set(c * k + c, row);
        proof {
            assert forall|ox: int, oy: int, j2: int|
                0 <= ox < old(self).k && 0 <= oy < old(self).k && 0 <= j2 < old(self).size_spec()
                    implies (#[trigger] self.forbids(ox, oy, j2)) == (old(self).forbids(ox, oy, j2)
                && !(ox == old(self).center() && oy == old(self).center())) by {
                let ki = old(self).k as int;
                let ci = ki / 2;
                lemma_offset_row(ki, ox, oy);
                lemma_offset_row_injective(ki, ox, oy, ci, ci);
            }
        }
    }
}

/// Self-compatibility of a freshly initialised tile: starting from a mask
/// that forbids every tile everywhere (`disallow_all`) and then clearing the
/// zero offset (`allow_center`), the tile tolerates every tile, itself
/// included, at zero displacement, and excludes every tile at every non-zero
/// offset, until real rules clear further entries.
pub proof fn lemma_fresh_tile_self_compatible(t1: Tile, t2: Tile, size: nat)
    requires
        t1.shaped(size),
        forall|ox: int, oy: int, j: int|
            0 <= ox < t1.k && 0 <= oy < t1.k && 0 <= j < size ==> #[trigger] t1.forbids(ox, oy, j),
        t2.shaped(size),
        t2.k == t1.k,
        forall|ox: int, oy: int, j: int|
            0 <= ox < t1.k && 0 <= oy < t1.k && 0 <= j < size ==> (#[trigger] t2.forbids(ox, oy, j))
                == (t1.forbids(ox, oy, j) && !(ox == t1.center() && oy == t1.center())),
    ensures
        forall|j: int| 0 <= j < size ==> !#[trigger] t2.forbids(t2.center(), t2.center(), j),
        forall|ox: int, oy: int, j: int|
            0 <= ox < t2.k && 0 <= oy < t2.k && 0 <= j < size && !(ox == t2.center() && oy
                == t2.center()) ==> #[trigger] t2.forbids(ox, oy, j),
{
}

} // verus!
