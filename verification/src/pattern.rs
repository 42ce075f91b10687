use vstd::prelude::*;

verus! {

/// A square window of payload values cut from the sample, with how often it
/// occurred; patterns with equal windows are merged during deduplication and
/// the survivor's counter becomes the synthesized tile's weight.
pub struct Pattern {
    /// The window, row-major: `pixel_data[i][j]` is the value at `(i, j)`.
    pub pixel_data: Vec<Vec<u32>>,
    /// Occurrence counter.
    pub freq: usize,
}

impl Pattern {
    /// The payload value at `(i, j)`.
    pub open spec fn px(&self, i: int, j: int) -> u32 {
        self.pixel_data@[i]@[j]
    }

    /// The window is `w` by `w`.
    pub open spec fn wf(&self, w: nat) -> bool {
        &&& self.pixel_data@.len() == w
        &&& forall|i: int| 0 <= i < w ==> (#[trigger] self.pixel_data@[i]@).len() == w
    }
}

impl Pattern {
    /// Cut the `w` by `w` window whose top-left corner is `(startx, starty)`
    /// out of the sample, with an occurrence counter of one.
    #[verifier::loop_isolation(false)]
    pub fn extract(src: &Vec<Vec<u32>>, startx: usize, starty: usize, w: usize) -> (r: Pattern)
        requires
            startx + w <= src@.len(),
            forall|i: int| 0 <= i < src@.len() ==> starty + w <= (#[trigger] src@[i]@).len(),
        ensures
            r.wf(w as nat),
            r.freq == 1,
            forall|i: int, j: int|
                0 <= i < w && 0 <= j < w ==> #[trigger] r.px(i, j) == src@[startx + i]@[starty + j],
    {
        let _srclen = src.len();
        let mut data: Vec<Vec<u32>> = Vec::new();
        let mut i: usize = 0;
        while i < w
            invariant
                i <= w,
                data@.len() == i,
                forall|t: int| 0 <= t < i ==> (#[trigger] data@[t]@).len() == w,
                forall|t: int, j: int|
                    0 <= t < i && 0 <= j < w ==> #[trigger] data@[t]@[j] == src@[startx + t]@[starty
                        + j],
            decreases w - i,
        {
            let row = &src[startx + i];
            let _rowlen = row.len();
            let mut out: Vec<u32> = Vec::new();
            let mut j: usize = 0;
            while j < w
                invariant
                    j <= w,
                    row@ == src@[startx + i]@,
                    out@.len() == j,
                    forall|t: int| 0 <= t < j ==> #[trigger] out@[t] == row@[starty + t],
                decreases w - j,
            {
                out.push(row[starty + j]);
                j = j + 1;
            }
            data.push(out);
            i = i + 1;
        }
        Pattern { pixel_data: data, freq: 1 }
    }

    /// A pattern straight from window data and a counter.
    pub fn fromdata(src: Vec<Vec<u32>>, f: usize) -> (r: Pattern)
        ensures
            r.pixel_data == src,
            r.freq == f,
    {
        Pattern { pixel_data: src, freq: f }
    }

    /// The pattern flipped left-to-right: each row reversed.
    pub fn y_mirror(&self) -> (r: Pattern)
        requires
            self.wf(self.pixel_data@.len()),
        ensures
            r.wf(self.pixel_data@.len()),
            r.freq == self.freq,
            forall|i: int, j: int|
                0 <= i < self.pixel_data@.len() && 0 <= j < self.pixel_data@.len()
                    ==> #[trigger] r.px(i, j) == self.px(i, self.pixel_data@.len() - 1 - j),
    {
        let w = self.pixel_data.len();
        let mut data: Vec<Vec<u32>> = Vec::new();
        let mut i: usize = 0;
        while i < w
            invariant
                i <= w,
                w == self.pixel_data@.len(),
                self.wf(w as nat),
                data@.len() == i,
                forall|t: int| 0 <= t < i ==> (#[trigger] data@[t]@).len() == w,
                forall|t: int, j: int|
                    0 <= t < i && 0 <= j < w ==> #[trigger] data@[t]@[j] == self.px(t, w - 1 - j),
            decreases w - i,
        {
            let row = &self.pixel_data[i];
            let mut out: Vec<u32> = Vec::new();
            let mut j: usize = 0;
            while j < w
                invariant
                    j <= w,
                    w == self.pixel_data@.len(),
                    row@ == self.pixel_data@[i as int]@,
                    row@.len() == w,
                    out@.len() == j,
                    forall|t: int| 0 <= t < j ==> #[trigger] out@[t] == row@[w - 1 - t],
                decreases w - j,
            {
                out.push(row[w - 1 - j]);
                j = j + 1;
            }
            data.push(out);
            i = i + 1;
        }
        Pattern { pixel_data: data, freq: self.freq }
    }

    /// The pattern flipped top-to-bottom: the row order reversed.
    pub fn x_mirror(&self) -> (r: Pattern)
        requires
            self.wf(self.pixel_data@.len()),
        ensures
            r.wf(self.pixel_data@.len()),
            r.freq == self.freq,
            forall|i: int, j: int|
                0 <= i < self.pixel_data@.len() && 0 <= j < self.pixel_data@.len()
                    ==> #[trigger] r.px(i, j) == self.px(self.pixel_data@.len() - 1 - i, j),
    {
        let w = self.pixel_data.len();
        let mut data: Vec<Vec<u32>> = Vec::new();
        let mut i: usize = 0;
        while i < w
            invariant
                i <= w,
                w == self.pixel_data@.len(),
                self.wf(w as nat),
                data@.len() == i,
                forall|t: int| 0 <= t < i ==> (#[trigger] data@[t]@).len() == w,
                forall|t: int, j: int|
                    0 <= t < i && 0 <= j < w ==> #[trigger] data@[t]@[j] == self.px(w - 1 - t, j),
            decreases w - i,
        {
            let row = &self.pixel_data[w - 1 - i];
            let mut out: Vec<u32> = Vec::new();
            let mut j: usize = 0;
            while j < w
                invariant
                    j <= w,
                    w == self.pixel_data@.len(),
                    row@ == self.pixel_data@[w - 1 - i]@,
                    row@.len() == w,
                    out@.len() == j,
                    forall|t: int| 0 <= t < j ==> #[trigger] out@[t] == row@[t],
                decreases w - j,
            {
                out.push(row[j]);
                j = j + 1;
            }
            data.push(out);
            i = i + 1;
        }
        Pattern { pixel_data: data, freq: self.freq }
    }

    /// The middle column of a 3-by-3 pattern.
    pub fn x(&self) -> (r: Vec<u32>)
        requires
            self.wf(3),
        ensures
            r@ == seq![self.px(0, 1), self.px(1, 1), self.px(2, 1)],
    {
        let mut r: Vec<u32> = Vec::new();
        r.push(self.pixel_data[0][1]);
        r.push(self.pixel_data[1][1]);
        r.push(self.pixel_data[2][1]);
        proof {
            assert(r@ =~= seq![self.px(0, 1), self.px(1, 1), self.px(2, 1)]);
        }
        r
    }

    /// The middle row of a 3-by-3 pattern.
    pub fn y(&self) -> (r: Vec<u32>)
        requires
            self.wf(3),
        ensures
            r@ == seq![self.px(1, 0), self.px(1, 1), self.px(1, 2)],
    {
        let mut r: Vec<u32> = Vec::new();
        r.push(self.pixel_data[1][0]);
        r.push(self.pixel_data[1][1]);
        r.push(self.pixel_data[1][2]);
        proof {
            assert(r@ =~= seq![self.px(1, 0), self.px(1, 1), self.px(1, 2)]);
        }
        r
    }

    /// The first row of a 3-by-3 pattern.
    pub fn top(&self) -> (r: Vec<u32>)
        requires
            self.wf(3),
        ensures
            r@ == seq![self.px(0, 0), self.px(0, 1), self.px(0, 2)],
    {
        let mut r: Vec<u32> = Vec::new();
        r.push(self.pixel_data[0][0]);
        r.push(self.pixel_data[0][1]);
        r.push(self.pixel_data[0][2]);
        proof {
            assert(r@ =~= seq![self.px(0, 0), self.px(0, 1), self.px(0, 2)]);
        }
        r
    }

    /// The last row of a 3-by-3 pattern.
    pub fn bottom(&self) -> (r: Vec<u32>)
        requires
            self.wf(3),
        ensures
            r@ == seq![self.px(2, 0), self.px(2, 1), self.px(2, 2)],
    {
        let mut r: Vec<u32> = Vec::new();
        r.push(self.pixel_data[2][0]);
        r.push(self.pixel_data[2][1]);
        r.push(self.pixel_data[2][2]);
        proof {
            assert(r@ =~= seq![self.px(2, 0), self.px(2, 1), self.px(2, 2)]);
        }
        r
    }

    /// The first column of a 3-by-3 pattern.
    pub fn left(&self) -> (r: Vec<u32>)
        requires
            self.wf(3),
        ensures
            r@ == seq![self.px(0, 0), self.px(1, 0), self.px(2, 0)],
    {
        let mut r: Vec<u32> = Vec::new();
        r.push(self.pixel_data[0][0]);
        r.push(self.pixel_data[1][0]);
        r.push(self.pixel_data[2][0]);
        proof {
            assert(r@ =~= seq![self.px(0, 0), self.px(1, 0), self.px(2, 0)]);
        }
        r
    }

    /// The last column of a 3-by-3 pattern.
    pub fn right(&self) -> (r: Vec<u32>)
        requires
            self.wf(3),
        ensures
            r@ == seq![self.px(0, 2), self.px(1, 2), self.px(2, 2)],
    {
        let mut r: Vec<u32> = Vec::new();
        r.push(self.pixel_data[0][2]);
        r.push(self.pixel_data[1][2]);
        r.push(self.pixel_data[2][2]);
        proof {
            assert(r@ =~= seq![self.px(0, 2), self.px(1, 2), self.px(2, 2)]);
        }
        r
    }

    /// The top-left 2-by-2 quadrant of a 3-by-3 pattern.
    pub fn top_left(&self) -> (r: Vec<u32>)
        requires
            self.wf(3),
        ensures
            r@ == seq![self.px(0, 0), self.px(0, 1), self.px(1, 0), self.px(1, 1)],
    {
        let mut r: Vec<u32> = Vec::new();
        r.push(self.pixel_data[0][0]);
        r.push(self.pixel_data[0][1]);
        r.push(self.pixel_data[1][0]);
        r.push(self.pixel_data[1][1]);
        proof {
            assert(r@ =~= seq![self.px(0, 0), self.px(0, 1), self.px(1, 0), self.px(1, 1)]);
        }
        r
    }

    /// The top-right 2-by-2 quadrant of a 3-by-3 pattern.
    pub fn top_right(&self) -> (r: Vec<u32>)
        requires
            self.wf(3),
        ensures
            r@ == seq![self.px(0, 1), self.px(0, 2), self.px(1, 1), self.px(1, 2)],
    {
        let mut r: Vec<u32> = Vec::new();
        r.push(self.pixel_data[0][1]);
        r.push(self.pixel_data[0][2]);
        r.push(self.pixel_data[1][1]);
        r.push(self.pixel_data[1][2]);
        proof {
            assert(r@ =~= seq![self.px(0, 1), self.px(0, 2), self.px(1, 1), self.px(1, 2)]);
        }
        r
    }

    /// The bottom-left 2-by-2 quadrant of a 3-by-3 pattern.
    pub fn bottom_left(&self) -> (r: Vec<u32>)
        requires
            self.wf(3),
        ensures
            r@ == seq![self.px(1, 0), self.px(1, 1), self.px(2, 0), self.px(2, 1)],
    {
        let mut r: Vec<u32> = Vec::new();
        r.push(self.pixel_data[1][0]);
        r.push(self.pixel_data[1][1]);
        r.push(self.pixel_data[2][0]);
        r.push(self.pixel_data[2][1]);
        proof {
            assert(r@ =~= seq![self.px(1, 0), self.px(1, 1), self.px(2, 0), self.px(2, 1)]);
        }
        r
    }

    /// The bottom-right 2-by-2 quadrant of a 3-by-3 pattern.
    pub fn bottom_right(&self) -> (r: Vec<u32>)
        requires
            self.wf(3),
        ensures
            r@ == seq![self.px(1, 1), self.px(1, 2), self.px(2, 1), self.px(2, 2)],
    {
        let mut r: Vec<u32> = Vec::new();
        r.push(self.pixel_data[1][1]);
        r.push(self.pixel_data[1][2]);
        r.push(self.pixel_data[2][1]);
        r.push(self.pixel_data[2][2]);
        proof {
            assert(r@ =~= seq![self.px(1, 1), self.px(1, 2), self.px(2, 1), self.px(2, 2)]);
        }
        r
    }
}

/// Structural equality of two patterns' windows; the counters play no part.
pub open spec fn pat_eq(a: Pattern, b: Pattern) -> bool {
    &&& a.pixel_data@.len() == b.pixel_data@.len()
    &&& forall|i: int|
        0 <= i < a.pixel_data@.len() ==> (#[trigger] a.pixel_data@[i]@).len()
            == b.pixel_data@[i]@.len()
    &&& forall|i: int, j: int|
        0 <= i < a.pixel_data@.len() && 0 <= j < a.pixel_data@[i]@.len() ==> a.px(i, j) == (
        #[trigger] b.px(i, j))
}

/// Whether the first `n` elements of `s` hold a window equal to `p`'s.
pub open spec fn has_match(s: Seq<Pattern>, p: Pattern, n: int) -> bool {
    exists|i: int| 0 <= i < n && pat_eq(#[trigger] s[i], p)
}

/// Merge `p` into the list `acc`, scanning from index `i`: the first element
/// with an equal window absorbs it (its counter goes up by one), else `p` is
/// appended.
pub open spec fn merge_one(acc: Seq<Pattern>, p: Pattern, i: int) -> Seq<Pattern>
    decreases acc.len() - i,
{
    if i < 0 || i >= acc.len() {
        acc.push(p)
    } else if pat_eq(acc[i], p) {
        acc.update(i, Pattern { pixel_data: acc[i].pixel_data, freq: (acc[i].freq + 1) as usize })
    } else {
        merge_one(acc, p, i + 1)
    }
}

/// The whole deduplication as a fold: merge the pending patterns into the
/// accumulated list one by one, in order.
pub open spec fn dedup_spec(acc: Seq<Pattern>, rest: Seq<Pattern>) -> Seq<Pattern>
    decreases rest.len(),
{
    if rest.len() == 0 {
        acc
    } else {
        dedup_spec(merge_one(acc, rest[0], 0), rest.drop_first())
    }
}

/// Skipping non-matching elements does not change where a pattern merges.
proof fn lemma_merge_skip(acc: Seq<Pattern>, p: Pattern, i: int, j: int)
    requires
        0 <= i <= j <= acc.len(),
        forall|t: int| i <= t < j ==> !pat_eq(#[trigger] acc[t], p),
    ensures
        merge_one(acc, p, i) == merge_one(acc, p, j),
    decreases j - i,
{
    if i < j {
        lemma_merge_skip(acc, p, i + 1, j);
    }
}

/// With no matching element at all, merging is appending.
proof fn lemma_merge_append(acc: Seq<Pattern>, p: Pattern)
    requires
        forall|t: int| 0 <= t < acc.len() ==> !pat_eq(#[trigger] acc[t], p),
    ensures
        merge_one(acc, p, 0) == acc.push(p),
{
    lemma_merge_skip(acc, p, 0, acc.len() as int);
}

/// Merging keeps windows well-formed, counters positive and bounded, and
/// the list no shorter.
proof fn lemma_merge_props(acc: Seq<Pattern>, p: Pattern, i: int, w: nat, b: int)
    requires
        0 <= i,
        forall|t: int|
            0 <= t < acc.len() ==> (#[trigger] acc[t]).wf(w) && 1 <= acc[t].freq <= b,
        p.wf(w),
        1 <= p.freq <= b,
        b + 1 <= usize::MAX,
    ensures
        acc.len() <= merge_one(acc, p, i).len() <= acc.len() + 1,
        forall|t: int|
            0 <= t < merge_one(acc, p, i).len() ==> (#[trigger] merge_one(acc, p, i)[t]).wf(w) && 1
                <= merge_one(acc, p, i)[t].freq <= b + 1,
    decreases acc.len() - i,
{
    if i < acc.len() && !pat_eq(acc[i], p) {
        lemma_merge_props(acc, p, i + 1, w, b);
    }
}

/// Deduplication keeps windows well-formed and counters positive, raises no
/// counter by more than the number of patterns merged away, and leaves a
/// list no longer than its input and never empty unless the input was.
pub proof fn lemma_dedup_props(acc: Seq<Pattern>, rest: Seq<Pattern>, w: nat, b: int)
    requires
        forall|t: int|
            0 <= t < acc.len() ==> (#[trigger] acc[t]).wf(w) && 1 <= acc[t].freq <= b,
        forall|t: int|
            0 <= t < rest.len() ==> (#[trigger] rest[t]).wf(w) && 1 <= rest[t].freq <= b,
        b + rest.len() <= usize::MAX,
    ensures
        acc.len() <= dedup_spec(acc, rest).len() <= acc.len() + rest.len(),
        acc.len() + rest.len() > 0 ==> dedup_spec(acc, rest).len() >= 1,
        forall|t: int|
            0 <= t < dedup_spec(acc, rest).len() ==> (#[trigger] dedup_spec(acc, rest)[t]).wf(w)
                && 1 <= dedup_spec(acc, rest)[t].freq <= b + rest.len(),
    decreases rest.len(),
{
    if rest.len() > 0 {
        lemma_merge_props(acc, rest[0], 0, w, b);
        let acc2 = merge_one(acc, rest[0], 0);
        assert(forall|t: int|
            0 <= t < rest.drop_first().len() ==> (#[trigger] rest.drop_first()[t]).wf(w) && 1
                <= rest.drop_first()[t].freq <= b + 1);
        lemma_dedup_props(acc2, rest.drop_first(), w, b + 1);
        assert(dedup_spec(acc, rest) == dedup_spec(acc2, rest.drop_first()));
    }
}

/// Whether two patterns hold equal windows.
#[verifier::loop_isolation(false)]
pub fn pattern_eq(a: &Pattern, b: &Pattern) -> (r: bool)
    ensures
        r == pat_eq(*a, *b),
{
    if a.pixel_data.len() != b.pixel_data.len() {
        return false;
    }
    let n = a.pixel_data.len();
    let mut i: usize = 0;
    while i < n
        invariant
            i <= n,
            n == a.pixel_data@.len(),
            n == b.pixel_data@.len(),
            forall|t: int| 0 <= t < i ==> (#[trigger] a.pixel_data@[t]@).len() == b.pixel_data@[t]@.len(),
            forall|t: int, j: int|
                0 <= t < i && 0 <= j < a.pixel_data@[t]@.len() ==> a.px(t, j) == (#[trigger] b.px(
                    t,
                    j,
                )),
        decreases n - i,
    {
        let ra = &a.pixel_data[i];
        let rb = &b.pixel_data[i];
        if ra.len() != rb.len() {
            return false;
        }
        let m = ra.len();
        let mut j: usize = 0;
        while j < m
            invariant
                j <= m,
                m == ra@.len(),
                m == rb@.len(),
                ra@ == a.pixel_data@[i as int]@,
                rb@ == b.pixel_data@[i as int]@,
                forall|t: int| 0 <= t < j ==> ra@[t] == rb@[t],
            decreases m - j,
        {
            if ra[j] != rb[j] {
                proof {
                    assert(a.px(i as int, j as int) != b.px(i as int, j as int));
                }
                return false;
            }
            j = j + 1;
        }
        i = i + 1;
    }
    true
}

/// Full deduplication by window equality, merging counters: walk the list
/// with a cursor; a pattern whose window already occurred earlier is removed
/// and bumps the earlier occurrence's counter by one; otherwise the cursor
/// moves on. First-occurrence order is kept.
#[verifier::loop_isolation(false)]
pub fn dedup(array: &mut Vec<Pattern>)
    requires
        forall|t: int|
            0 <= t < old(array)@.len() ==> (#[trigger] old(array)@[t]).freq + old(array)@.len()
                <= usize::MAX,
    ensures
        final(array)@ == dedup_spec(Seq::<Pattern>::empty(), old(array)@),
{
    let ghost input = array@;
    let ghost total0 = array@.len() as int;
    let mut cursor: usize = 0;
    proof {
        assert(array@.subrange(0, 0) =~= Seq::<Pattern>::empty());
        assert(array@.subrange(0, array@.len() as int) =~= array@);
    }
    while cursor < array.len()
        invariant
            cursor <= array@.len(),
            array@.len() <= total0,
            forall|t: int|
                0 <= t < array@.len() ==> (#[trigger] array@[t]).freq + array@.len() <= usize::MAX,
            dedup_spec(
                array@.subrange(0, cursor as int),
                array@.subrange(cursor as int, array@.len() as int),
            ) == dedup_spec(Seq::<Pattern>::empty(), input),
        decreases array@.len() - cursor,
    {
        let ghost arr0 = array@;
        let ghost prefix = array@.subrange(0, cursor as int);
        let ghost suffix = array@.subrange(cursor as int, array@.len() as int);
        let cur = cursor;
        let mut found = false;
        let mut at: usize = 0;
        let mut j: usize = 0;
        while j < cur && !found
            invariant
                j <= cur,
                cur < array@.len(),
                array@ == arr0,
                !found ==> forall|t: int| 0 <= t < j ==> !pat_eq(#[trigger] array@[t], array@[cur as int]),
                found ==> at < cur && pat_eq(array@[at as int], array@[cur as int]) && forall|
                    t: int,
                |
                    0 <= t < at ==> !pat_eq(#[trigger] array@[t], array@[cur as int]),
            decreases cur - j + (if found {
                0int
            } else {
                1int
            }),
        {
            if pattern_eq(&array[j], &array[cursor]) {
                found = true;
                at = j;
            } else {
                j = j + 1;
            }
        }
        if found {
            let p = array.remove(cursor);
            let rep = &mut array[at];
            let f = rep.freq;
            rep.freq = f + 1;
            proof {
                let newpre = array@.subrange(0, cursor as int);
                let newsuf = array@.subrange(cursor as int, array@.len() as int);
                assert(newsuf =~= suffix.drop_first());
                assert(newpre =~= merge_one(prefix, suffix[0], 0)) by {
                    assert(prefix[at as int] == arr0[at as int]);
                    assert(pat_eq(prefix[at as int], suffix[0]));
                    lemma_merge_skip(prefix, suffix[0], 0, at as int);
                    assert(merge_one(prefix, suffix[0], at as int) == prefix.update(
                        at as int,
                        Pattern {
                            pixel_data: prefix[at as int].pixel_data,
                            freq: (prefix[at as int].freq + 1) as usize,
                        },
                    ));
                }
            }
        } else {
            proof {
                let newpre = arr0.subrange(0, cursor as int + 1);
                let newsuf = arr0.subrange(cursor as int + 1, arr0.len() as int);
                assert(newsuf =~= suffix.drop_first());
                assert forall|t: int| 0 <= t < prefix.len() implies !pat_eq(
                    #[trigger] prefix[t],
                    suffix[0],
                ) by {
                    assert(prefix[t] == arr0[t]);
                }
                lemma_merge_append(prefix, suffix[0]);
                assert(newpre =~= prefix.push(suffix[0]));
            }
            cursor = cursor + 1;
        }
    }
    proof {
        assert(array@.subrange(0, cursor as int) =~= array@);
        assert(array@.subrange(cursor as int, array@.len() as int) =~= Seq::<Pattern>::empty());
    }
}

} // verus!
