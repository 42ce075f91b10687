use vstd::prelude::*;

use crate::pattern::dedup;
use crate::pattern::dedup_spec;
use crate::pattern::lemma_dedup_props;
use crate::pattern::Pattern;
use crate::tile::Tile;
use crate::wave::lemma_row_decompose;
use crate::wave::Wave;

verus! {

/// `p` is the window of the sample at flat position `idx` (`idx / ny` down,
/// `idx % ny` across), with a counter of one.
pub open spec fn extraction_at(src: Seq<Vec<u32>>, w: int, ny: int, p: Pattern, idx: int) -> bool {
    &&& p.wf(w as nat)
    &&& p.freq == 1
    &&& forall|i: int, j: int|
        0 <= i < w && 0 <= j < w ==> #[trigger] p.px(i, j) == src[idx / ny + i]@[idx % ny + j]
}

/// `pats` lists one pattern per valid window position of the sample, in
/// row-major order of the positions.
pub open spec fn is_extraction(src: Seq<Vec<u32>>, w: int, pats: Seq<Pattern>) -> bool {
    let ny = src[0]@.len() - w + 1;
    &&& pats.len() == (src.len() - w + 1) * ny
    &&& forall|idx: int|
        0 <= idx < pats.len() ==> extraction_at(src, w, ny, #[trigger] pats[idx], idx)
}

/// `b` is `a` flipped left-to-right.
pub open spec fn is_y_mirror_of(a: Pattern, b: Pattern, w: int) -> bool {
    &&& b.wf(w as nat)
    &&& b.freq == a.freq
    &&& forall|i: int, j: int|
        0 <= i < w && 0 <= j < w ==> #[trigger] b.px(i, j) == a.px(i, w - 1 - j)
}

/// `b` is `a` flipped top-to-bottom.
pub open spec fn is_x_mirror_of(a: Pattern, b: Pattern, w: int) -> bool {
    &&& b.wf(w as nat)
    &&& b.freq == a.freq
    &&& forall|i: int, j: int|
        0 <= i < w && 0 <= j < w ==> #[trigger] b.px(i, j) == a.px(w - 1 - i, j)
}

/// `out` is `src` followed by the left-right mirror of each of its patterns,
/// followed by the top-bottom mirror of everything so far — which covers the
/// combined flip too. Mirrors inherit their source's counter.
pub open spec fn is_mirror_expansion(src: Seq<Pattern>, w: int, out: Seq<Pattern>) -> bool {
    &&& out.len() == 4 * src.len()
    &&& forall|i: int| 0 <= i < src.len() ==> #[trigger] out[i] == src[i]
    &&& forall|i: int|
        src.len() <= i < 2 * src.len() ==> is_y_mirror_of(src[i - src.len()], #[trigger] out[i], w)
    &&& forall|i: int|
        2 * src.len() <= i < 4 * src.len() ==> is_x_mirror_of(
            out[i - 2 * src.len()],
            #[trigger] out[i],
            w,
        )
}

/// Whether pattern `b`, laid at offset `(dx, dy)` from pattern `a`, agrees
/// with `a` on every sample value where their `w` by `w` footprints overlap.
pub open spec fn compatible_spec(a: Pattern, b: Pattern, w: int, dx: int, dy: int) -> bool {
    forall|ax: int, ay: int|
        0 <= ax < w && 0 <= ay < w && 0 <= ax - dx < w && 0 <= ay - dy < w ==> #[trigger] a.px(
            ax,
            ay,
        ) == b.px(ax - dx, ay - dy)
}

/// The pallet `tiles` is the translation of the deduplicated patterns: one
/// tile per pattern over the `2w-1` kernel, weighted by its occurrence
/// counter, carrying its center value, and forbidding exactly the
/// pattern pairs that conflict on their overlap — with the zero offset
/// always tolerated.
pub open spec fn tiles_of(pats: Seq<Pattern>, w: int, tiles: Seq<Tile>) -> bool {
    &&& tiles.len() == pats.len()
    &&& forall|a: int|
        0 <= a < pats.len() ==> (#[trigger] tiles[a]).k == 2 * w - 1 && tiles[a].weight
            == pats[a].freq && tiles[a].additional == pats[a].px(w / 2, w / 2)
    &&& forall|a: int, kx: int, ky: int, b: int|
        0 <= a < pats.len() && 0 <= kx < 2 * w - 1 && 0 <= ky < 2 * w - 1 && 0 <= b < pats.len()
            ==> (#[trigger] tiles[a].forbids(kx, ky, b)) == !((kx == w - 1 && ky == w - 1)
            || compatible_spec(pats[a], pats[b], w, kx - (w - 1), ky - (w - 1)))
}

/// The synthesizer's whole pipeline, relating the sample to the pallet it
/// yields: windows are extracted, deduplicated, optionally mirror-expanded
/// and deduplicated again, and translated into tiles.
pub open spec fn synthesis_rel(
    img: Seq<Vec<u32>>,
    w: int,
    mirror: bool,
    pallet: Seq<Tile>,
) -> bool {
    exists|extracted: Seq<Pattern>, expanded: Seq<Pattern>|
        #![trigger is_extraction(img, w, extracted), expansion_ok(extracted, w, mirror, expanded)]
        {
            &&& is_extraction(img, w, extracted)
            &&& expansion_ok(extracted, w, mirror, expanded)
            &&& tiles_of(dedup_spec(Seq::<Pattern>::empty(), expanded), w, pallet)
        }
}

/// The middle of the pipeline: the extracted windows deduplicated, and with
/// the mirror flag set also mirror-expanded.
pub open spec fn expansion_ok(extracted: Seq<Pattern>, w: int, mirror: bool, out: Seq<Pattern>) -> bool {
    if mirror {
        is_mirror_expansion(dedup_spec(Seq::<Pattern>::empty(), extracted), w, out)
    } else {
        out == dedup_spec(Seq::<Pattern>::empty(), extracted)
    }
}

/// One pattern per valid window position, in row-major position order.
#[verifier::loop_isolation(false)]
fn extract_all(image: &Vec<Vec<u32>>, w: usize) -> (pats: Vec<Pattern>)
    requires
        1 <= w <= 0x3fff,
        w <= image@.len() <= 0x3fff,
        forall|i: int| 0 <= i < image@.len() ==> (#[trigger] image@[i]@).len() == image@[0]@.len(),
        w <= image@[0]@.len() <= 0x3fff,
    ensures
        is_extraction(image@, w as int, pats@),
        1 <= pats@.len() <= 0x0fff_8001,
        forall|t: int| 0 <= t < pats@.len() ==> (#[trigger] pats@[t]).wf(w as nat),
        forall|t: int| 0 <= t < pats@.len() ==> (#[trigger] pats@[t]).freq == 1,
{
    let imagex = image.len();
    let imagey = image[0].len();
    let nx = imagex - w + 1;
    let ny = imagey - w + 1;
    proof {
        assert((nx as int) * (ny as int) <= 0x3fff * 0x3fff) by (nonlinear_arith)
            requires
                0 <= nx <= 0x3fff && 0 <= ny <= 0x3fff,
        ;
        assert((nx as int) * (ny as int) >= 1) by (nonlinear_arith)
            requires
                1 <= nx && 1 <= ny,
        ;
        assert(0x3fff * 0x3fff == 0x0fff_8001int);
    }
    let mut pats: Vec<Pattern> = Vec::new();
    let mut x: usize = 0;
    while x < nx
        invariant
            x <= nx,
            pats@.len() == x * ny,
            forall|idx: int|
                0 <= idx < pats@.len() ==> extraction_at(
                    image@,
                    w as int,
                    ny as int,
                    #[trigger] pats@[idx],
                    idx,
                ),
        decreases nx - x,
    {
        let mut y: usize = 0;
        while y < ny
            invariant
                x < nx,
                y <= ny,
                pats@.len() == x * ny + y,
                forall|idx: int|
                    0 <= idx < pats@.len() ==> extraction_at(
                        image@,
                        w as int,
                        ny as int,
                        #[trigger] pats@[idx],
                        idx,
                    ),
            decreases ny - y,
        {
            proof {
                assert(x * ny + y < nx * ny) by (nonlinear_arith)
                    requires
                        0 <= x < nx && 0 <= y < ny && 0 <= ny,
                ;
            }
            let p = Pattern::extract(image, x, y, w);
            pats.push(p);
            proof {
                lemma_row_decompose(ny as int, x as int, y as int);
                assert(extraction_at(
                    image@,
                    w as int,
                    ny as int,
                    p,
                    x as int * ny as int + y as int,
                ));
            }
            y = y + 1;
        }
        proof {
            assert((x as int + 1) * ny == x as int * ny + ny) by (nonlinear_arith);
        }
        x = x + 1;
    }
    pats
}

/// Append to the list the left-right mirror of every pattern, then the
/// top-bottom mirror of everything now present, capturing the combined
/// transform as well; mirrors inherit their sources' counters.
#[verifier::loop_isolation(false)]
fn mirror_expand(patterns: &mut Vec<Pattern>, w: usize)
    requires
        1 <= w,
        old(patterns)@.len() <= 0x3fff_ffff,
        forall|t: int| 0 <= t < old(patterns)@.len() ==> (#[trigger] old(patterns)@[t]).wf(w as nat),
    ensures
        is_mirror_expansion(old(patterns)@, w as int, final(patterns)@),
{
    let n = patterns.len();
    let mut i: usize = 0;
    while i < n
        invariant
            i <= n,
            patterns@.len() == n + i,
            forall|t: int| 0 <= t < n ==> #[trigger] patterns@[t] == old(patterns)@[t],
            forall|t: int|
                n <= t < n + i ==> is_y_mirror_of(
                    old(patterns)@[t - n],
                    #[trigger] patterns@[t],
                    w as int,
                ),
        decreases n - i,
    {
        let m = patterns[i].y_mirror();
        patterns.push(m);
        i = i + 1;
    }
    let n2 = patterns.len();
    let mut i2: usize = 0;
    while i2 < n2
        invariant
            i2 <= n2,
            n2 == 2 * n,
            patterns@.len() == n2 + i2,
            forall|t: int| 0 <= t < n ==> #[trigger] patterns@[t] == old(patterns)@[t],
            forall|t: int|
                n <= t < n2 ==> is_y_mirror_of(
                    old(patterns)@[t - n],
                    #[trigger] patterns@[t],
                    w as int,
                ),
            forall|t: int|
                n2 <= t < n2 + i2 ==> is_x_mirror_of(
                    patterns@[t - n2],
                    #[trigger] patterns@[t],
                    w as int,
                ),
        decreases n2 - i2,
    {
        let m = patterns[i2].x_mirror();
        patterns.push(m);
        i2 = i2 + 1;
    }
}

/// Whether pattern `b`, laid at kernel position `(kx, ky)` (offset
/// `(kx - (w-1), ky - (w-1))`) from pattern `a`, matches `a` on every
/// overlapping value.
#[verifier::loop_isolation(false)]
fn compatible(a: &Pattern, b: &Pattern, w: usize, kx: usize, ky: usize) -> (r: bool)
    requires
        1 <= w <= 0x3fff,
        a.wf(w as nat),
        b.wf(w as nat),
        kx < 2 * w - 1,
        ky < 2 * w - 1,
    ensures
        r == compatible_spec(*a, *b, w as int, kx - (w - 1), ky - (w - 1)),
{
    let ghost dx = kx - (w - 1);
    let ghost dy = ky - (w - 1);
    let mut ax: usize = 0;
    while ax < w
        invariant
            ax <= w,
            forall|i: int, j: int|
                0 <= i < ax && 0 <= j < w && 0 <= i - dx < w && 0 <= j - dy < w ==> #[trigger] a.px(
                    i,
                    j,
                ) == b.px(i - dx, j - dy),
        decreases w - ax,
    {
        let mut ay: usize = 0;
        while ay < w
            invariant
                ax < w,
                ay <= w,
                forall|i: int, j: int|
                    0 <= i < ax && 0 <= j < w && 0 <= i - dx < w && 0 <= j - dy < w
                        ==> #[trigger] a.px(i, j) == b.px(i - dx, j - dy),
            forall|j: int|
                0 <= j < ay && 0 <= ax - dx < w && 0 <= j - dy < w ==> #[trigger] a.px(
                    ax as int,
                    j,
                ) == b.px(ax - dx, j - dy),
            decreases w - ay,
        {
            let bxp = ax + (w - 1);
            let byp = ay + (w - 1);
            if bxp >= kx && bxp - kx < w && byp >= ky && byp - ky < w {
                let bx = bxp - kx;
                let by = byp - ky;
                proof {
                    assert(bx as int == ax - dx);
                    assert(by as int == ay - dy);
                }
                if a.pixel_data[ax][ay] != b.pixel_data[bx][by] {
                    proof {
                        assert(a.px(ax as int, ay as int) != b.px(ax - dx, ay - dy));
                    }
                    return false;
                }
            }
            ay = ay + 1;
        }
        ax = ax + 1;
    }
    true
}

/// One tile per pattern: start from a mask that forbids everything, tolerate
/// every tile at the zero offset, and clear each entry whose pattern pair
/// overlaps without conflict; the tile's weight is the pattern's counter and
/// its payload the pattern's center value.
#[verifier::loop_isolation(false)]
fn build_tiles(patterns: &Vec<Pattern>, w: usize) -> (tiles: Vec<Tile>)
    requires
        w % 2 == 1,
        1 <= w <= 0x3fff,
        1 <= patterns@.len() <= 0xffff_ffff,
        forall|t: int| 0 <= t < patterns@.len() ==> (#[trigger] patterns@[t]).wf(w as nat),
        forall|t: int|
            0 <= t < patterns@.len() ==> 1 <= (#[trigger] patterns@[t]).freq <= 0xffff_ffff,
    ensures
        tiles_of(patterns@, w as int, tiles@),
        forall|t: int|
            0 <= t < tiles@.len() ==> (#[trigger] tiles@[t]).wf(patterns@.len() as nat),
{
    let n = patterns.len();
    let k = 2 * w - 1;
    let c = w - 1;
    let mut tiles: Vec<Tile> = Vec::new();
    let mut a: usize = 0;
    while a < n
        invariant
            a <= n,
            k == 2 * w - 1,
            c == w - 1,
            tiles@.len() == a,
            forall|t: int| 0 <= t < a ==> (#[trigger] tiles@[t]).wf(n as nat),
            forall|t: int|
                0 <= t < a ==> (#[trigger] tiles@[t]).k == k && tiles@[t].weight
                    == patterns@[t].freq && tiles@[t].additional == patterns@[t].px(
                    w as int / 2,
                    w as int / 2,
                ),
            forall|t: int, kx: int, ky: int, b: int|
                0 <= t < a && 0 <= kx < k && 0 <= ky < k && 0 <= b < n ==> (
                #[trigger] tiles@[t].forbids(kx, ky, b)) == !((kx == w - 1 && ky == w - 1)
                    || compatible_spec(
                    patterns@[t],
                    patterns@[b],
                    w as int,
                    kx - (w - 1),
                    ky - (w - 1),
                )),
        decreases n - a,
    {
        let center_px = patterns[a].pixel_data[w / 2][w / 2];
        let weight = patterns[a].freq as u32;
        let mut tile = Tile::disallow_all(k, n, center_px);
        proof {
            assert((k as int) * (k as int) >= 1) by (nonlinear_arith)
                requires
                    1 <= k,
            ;
            assert(tile.mask@.len() > 0);
            assert(tile.size_spec() == n as nat);
        }
        tile.allow_center();
        proof {
            assert(tile.k as int / 2 == c as int);
            assert(tile.mask@.len() > 0);
            assert(tile.size_spec() == n as nat);
            assert forall|x2: int, y2: int, b2: int|
                0 <= x2 < k && 0 <= y2 < k && 0 <= b2 < n implies (#[trigger] tile.forbids(
                x2,
                y2,
                b2,
            )) == !(x2 == w - 1 && y2 == w - 1) by {
                assert(tile.forbids(x2, y2, b2) == (true && !(x2 == c as int && y2 == c as int)));
            }
        }
        let mut kx: usize = 0;
        while kx < k
            invariant
                a < n,
                kx <= k,
                tile.shaped(n as nat),
                tile.k == k,
                tile.weight == 1,
                tile.additional == center_px,
                forall|x2: int, y2: int, b: int|
                    0 <= x2 < k && 0 <= y2 < k && 0 <= b < n && (x2 < kx) ==> (
                    #[trigger] tile.forbids(x2, y2, b)) == !((x2 == w - 1 && y2 == w - 1)
                        || compatible_spec(
                        patterns@[a as int],
                        patterns@[b],
                        w as int,
                        x2 - (w - 1),
                        y2 - (w - 1),
                    )),
                forall|x2: int, y2: int, b: int|
                    0 <= x2 < k && 0 <= y2 < k && 0 <= b < n && (x2 >= kx) ==> (
                    #[trigger] tile.forbids(x2, y2, b)) == !(x2 == w - 1 && y2 == w - 1),
            decreases k - kx,
        {
            let mut ky: usize = 0;
            while ky < k
                invariant
                    a < n,
                    kx < k,
                    ky <= k,
                    tile.shaped(n as nat),
                    tile.k == k,
                    tile.weight == 1,
                    tile.additional == center_px,
                    forall|x2: int, y2: int, b: int|
                        0 <= x2 < k && 0 <= y2 < k && 0 <= b < n && (x2 < kx || (x2 == kx && y2
                            < ky)) ==> (#[trigger] tile.forbids(x2, y2, b)) == !((x2 == w - 1 && y2
                            == w - 1) || compatible_spec(
                            patterns@[a as int],
                            patterns@[b],
                            w as int,
                            x2 - (w - 1),
                            y2 - (w - 1),
                        )),
                    forall|x2: int, y2: int, b: int|
                        0 <= x2 < k && 0 <= y2 < k && 0 <= b < n && (x2 > kx || (x2 == kx && y2
                            >= ky)) ==> (#[trigger] tile.forbids(x2, y2, b)) == !(x2 == w - 1 && y2
                            == w - 1),
                decreases k - ky,
            {
                let mut b: usize = 0;
                while b < n
                    invariant
                        a < n,
                        kx < k,
                        ky < k,
                        b <= n,
                        tile.shaped(n as nat),
                        tile.k == k,
                        tile.weight == 1,
                        tile.additional == center_px,
                        forall|x2: int, y2: int, b2: int|
                            0 <= x2 < k && 0 <= y2 < k && 0 <= b2 < n && (x2 < kx || (x2 == kx && y2
                                < ky) || (x2 == kx && y2 == ky && b2 < b)) ==> (
                            #[trigger] tile.forbids(x2, y2, b2)) == !((x2 == w - 1 && y2 == w - 1)
                                || compatible_spec(
                                patterns@[a as int],
                                patterns@[b2],
                                w as int,
                                x2 - (w - 1),
                                y2 - (w - 1),
                            )),
                        forall|x2: int, y2: int, b2: int|
                            0 <= x2 < k && 0 <= y2 < k && 0 <= b2 < n && (x2 > kx || (x2 == kx && y2
                                > ky) || (x2 == kx && y2 == ky && b2 >= b)) ==> (
                            #[trigger] tile.forbids(x2, y2, b2)) == !(x2 == w - 1 && y2 == w - 1),
                    decreases n - b,
                {
                    if compatible(&patterns[a], &patterns[b], w, kx, ky) {
                        tile.allow(kx, ky, b);
                    }
                    b = b + 1;
                }
                ky = ky + 1;
            }
            kx = kx + 1;
        }
        let ghost tile0 = tile;
        tile.weight = weight;
        let ghost prev_tiles = tiles@;
        tiles.push(tile);
        proof {
            assert forall|t: int, kx2: int, ky2: int, b2: int|
                0 <= t < a + 1 && 0 <= kx2 < k && 0 <= ky2 < k && 0 <= b2 < n implies (
            #[trigger] tiles@[t].forbids(kx2, ky2, b2)) == !((kx2 == w - 1 && ky2 == w - 1)
                || compatible_spec(
                patterns@[t],
                patterns@[b2],
                w as int,
                kx2 - (w - 1),
                ky2 - (w - 1),
            )) by {
                if t < a {
                    assert(tiles@[t] == prev_tiles[t]);
                    assert((prev_tiles[t]).forbids(kx2, ky2, b2) == !((kx2 == w - 1 && ky2 == w - 1)
                        || compatible_spec(
                        patterns@[t],
                        patterns@[b2],
                        w as int,
                        kx2 - (w - 1),
                        ky2 - (w - 1),
                    )));
                } else {
                    assert(tiles@[t] == tile);
                    assert((tile0).forbids(kx2, ky2, b2) == !((kx2 == w - 1 && ky2 == w - 1)
                        || compatible_spec(
                        patterns@[t],
                        patterns@[b2],
                        w as int,
                        kx2 - (w - 1),
                        ky2 - (w - 1),
                    )));
                    assert(tile.mask == tile0.mask && tile.k == tile0.k);
                    assert(tile.forbids(kx2, ky2, b2) == tile0.forbids(kx2, ky2, b2));
                }
            }
        }
        a = a + 1;
    }
    tiles
}

/// Build a solver from a sample: extract every `window` by `window` pattern,
/// deduplicate them into weighted representatives, optionally add axis
/// mirrors (rotations are not covered), test every pattern pair for
/// conflict-free overlap at every kernel offset, and hand the resulting
/// pallet to a solver over a `resultx` by `resulty` grid seeded with `seed`.
pub fn synthesize(
    image: Vec<Vec<u32>>,
    resulty: usize,
    resultx: usize,
    window: usize,
    mirror: bool,
    seed: u64,
) -> (w: Wave)
    requires
        window % 2 == 1,
        1 <= window <= 0x3fff,
        window <= image@.len() <= 0x3fff,
        forall|i: int| 0 <= i < image@.len() ==> (#[trigger] image@[i]@).len() == image@[0]@.len(),
        window <= image@[0]@.len() <= 0x3fff,
        1 < resultx <= 0xffff_ffff,
        1 < resulty <= 0xffff_ffff,
    ensures
        w.wf(),
        w.propagated(),
        w.x == resultx,
        w.y == resulty,
        w.rng.seed() == seed,
        w.rng.drawn() == 0,
        w.pallet_size >= 1,
        forall|i: int, j: int, id: int|
            0 <= i < w.x && 0 <= j < w.y && 0 <= id < w.pallet_size ==> (#[trigger] w.cell(i, j)[id]),
        synthesis_rel(image@, window as int, mirror, w.pallet@),
{
    let mut patterns = extract_all(&image, window);
    let ghost extracted = patterns@;
    proof {
        lemma_dedup_props(Seq::<Pattern>::empty(), extracted, window as nat, 1);
    }
    dedup(&mut patterns);
    let ghost deduped = patterns@;
    proof {
        assert(deduped == dedup_spec(Seq::<Pattern>::empty(), extracted));
        assert(1 <= deduped.len() <= 0x0fff_8001);
        assert(forall|t: int|
            0 <= t < deduped.len() ==> (#[trigger] deduped[t]).wf(window as nat) && 1
                <= deduped[t].freq <= 0x0fff_8002);
    }
    if mirror {
        mirror_expand(&mut patterns, window);
    }
    let ghost expanded = patterns@;
    proof {
        assert(expansion_ok(extracted, window as int, mirror, expanded));
        assert(expanded.len() <= 0x3ffe_0004);
        assert forall|t: int| 0 <= t < expanded.len() implies (#[trigger] expanded[t]).wf(
            window as nat,
        ) && 1 <= expanded[t].freq <= 0x0fff_8002 by {
            if mirror {
                let n = deduped.len() as int;
                if t < n {
                    assert(expanded[t] == deduped[t]);
                } else if t < 2 * n {
                    assert(is_y_mirror_of(deduped[t - n], expanded[t], window as int));
                    assert(expanded[t].freq == deduped[t - n].freq);
                } else {
                    assert(is_x_mirror_of(expanded[t - 2 * n], expanded[t], window as int));
                    if t - 2 * n < n {
                        assert(expanded[t - 2 * n] == deduped[t - 2 * n]);
                    } else {
                        assert(is_y_mirror_of(
                            deduped[t - 2 * n - n],
                            expanded[t - 2 * n],
                            window as int,
                        ));
                    }
                }
            }
        }
        lemma_dedup_props(Seq::<Pattern>::empty(), expanded, window as nat, 0x0fff_8002);
    }
    dedup(&mut patterns);
    proof {
        assert(patterns@ == dedup_spec(Seq::<Pattern>::empty(), expanded));
        assert(1 <= patterns@.len() <= 0x3ffe_0004);
        assert(forall|t: int|
            0 <= t < patterns@.len() ==> (#[trigger] patterns@[t]).wf(window as nat) && 1
                <= patterns@[t].freq <= 0x4ffd_8006);
    }
    let tiles = build_tiles(&patterns, window);
    let wave = Wave::new(tiles, resultx, resulty, seed);
    proof {
        assert(is_extraction(image@, window as int, extracted));
        assert(tiles_of(
            dedup_spec(Seq::<Pattern>::empty(), expanded),
            window as int,
            wave.pallet@,
        ));
        assert(synthesis_rel(image@, window as int, mirror, wave.pallet@));
    }
    wave
}

/// The overlapping model with its classic window of three: extract, weight
/// and pairwise-test the sample's 3-by-3 patterns, with axis mirrors when
/// `mirror` is set, and return the ready-to-run solver.
pub fn overlapping(
    image: Vec<Vec<u32>>,
    resulty: usize,
    resultx: usize,
    mirror: bool,
    seed: u64,
) -> (w: Wave)
    requires
        3 <= image@.len() <= 0x3fff,
        forall|i: int| 0 <= i < image@.len() ==> (#[trigger] image@[i]@).len() == image@[0]@.len(),
        3 <= image@[0]@.len() <= 0x3fff,
        1 < resultx <= 0xffff_ffff,
        1 < resulty <= 0xffff_ffff,
    ensures
        w.wf(),
        w.propagated(),
        w.x == resultx,
        w.y == resulty,
        w.rng.seed() == seed,
        w.rng.drawn() == 0,
        w.pallet_size >= 1,
        forall|i: int, j: int, id: int|
            0 <= i < w.x && 0 <= j < w.y && 0 <= id < w.pallet_size ==> (#[trigger] w.cell(i, j)[id]),
        synthesis_rel(image@, 3, mirror, w.pallet@),
{
    synthesize(image, resulty, resultx, 3, mirror, seed)
}

/// The overlapping model without mirroring.
pub fn overlaping(image: Vec<Vec<u32>>, resulty: usize, resultx: usize, seed: u64) -> (w: Wave)
    requires
        3 <= image@.len() <= 0x3fff,
        forall|i: int| 0 <= i < image@.len() ==> (#[trigger] image@[i]@).len() == image@[0]@.len(),
        3 <= image@[0]@.len() <= 0x3fff,
        1 < resultx <= 0xffff_ffff,
        1 < resulty <= 0xffff_ffff,
    ensures
        w.wf(),
        w.propagated(),
        w.x == resultx,
        w.y == resulty,
        w.rng.seed() == seed,
        w.rng.drawn() == 0,
        w.pallet_size >= 1,
        forall|i: int, j: int, id: int|
            0 <= i < w.x && 0 <= j < w.y && 0 <= id < w.pallet_size ==> (#[trigger] w.cell(i, j)[id]),
        synthesis_rel(image@, 3, false, w.pallet@),
{
    synthesize(image, resulty, resultx, 3, false, seed)
}

} // verus!
