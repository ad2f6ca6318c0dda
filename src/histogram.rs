use vstd::prelude::*;
use crate::sums::{prefix_sum, seq_sum};

verus! {

/// The number of intensity levels, and so of histogram bins and table entries.
pub const LEVELS: usize = 256;

/// A tile grid fits an image when it has at least one tile on each axis and
/// each tile holds at least one column and one row of pixels.
pub open spec fn grid_fits(w: int, h: int, gx: int, gy: int) -> bool {
    gx >= 1 && gy >= 1 && w >= gx && h >= gy
}

/// The width of a tile that absorbs no remainder (the same rule gives heights).
pub open spec fn tile_span(w: int, gx: int) -> int {
    w / gx
}

/// First column (or row) of tile `t` along an axis of length `w` cut into `gx` tiles.
pub open spec fn tile_start(w: int, gx: int, t: int) -> int {
    t * tile_span(w, gx)
}

/// One past the last column (or row) of tile `t`: the last tile runs to the image edge.
pub open spec fn tile_end(w: int, gx: int, t: int) -> int {
    if t == gx - 1 {
        w
    } else {
        (t + 1) * tile_span(w, gx)
    }
}

/// Number of pixels equal to `v` in row `y` between columns `x0` (included) and `x` (excluded).
pub open spec fn count_row(img: Seq<u8>, w: int, y: int, x0: int, x: int, v: int) -> int
    decreases x - x0,
{
    if x <= x0 {
        0
    } else {
        count_row(img, w, y, x0, x - 1, v) + (if img[y * w + x - 1] as int == v { 1int } else { 0int })
    }
}

/// Number of pixels equal to `v` in the rectangle of columns `x0..x1` and rows `y0..y`.
pub open spec fn count_rect(img: Seq<u8>, w: int, x0: int, x1: int, y0: int, y: int, v: int) -> int
    decreases y - y0,
{
    if y <= y0 {
        0
    } else {
        count_rect(img, w, x0, x1, y0, y - 1, v) + count_row(img, w, y - 1, x0, x1, v)
    }
}

/// The 256-bin intensity histogram of the pixels of tile `(tx, ty)`.
pub open spec fn tile_histogram(
    img: Seq<u8>,
    w: int,
    h: int,
    gx: int,
    gy: int,
    tx: int,
    ty: int,
) -> Seq<int> {
    Seq::new(
        256,
        |v: int|
            count_rect(
                img,
                w,
                tile_start(w, gx, tx),
                tile_end(w, gx, tx),
                tile_start(h, gy, ty),
                tile_end(h, gy, ty),
                v,
            ),
    )
}

/// The number of pixels in tile `(tx, ty)`, remainder rows and columns included.
pub open spec fn tile_pixels(w: int, h: int, gx: int, gy: int, tx: int, ty: int) -> int {
    (tile_end(w, gx, tx) - tile_start(w, gx, tx)) * (tile_end(h, gy, ty) - tile_start(h, gy, ty))
}

/// Every tile along an axis is a non-empty range inside the axis.
pub proof fn lemma_tile_bounds(w: int, gx: int, t: int)
    requires
        gx >= 1,
        w >= gx,
        0 <= t < gx,
    ensures
        tile_span(w, gx) >= 1,
        gx * tile_span(w, gx) <= w,
        0 <= tile_start(w, gx, t) < tile_end(w, gx, t) <= w,
        tile_end(w, gx, t) - tile_start(w, gx, t) >= tile_span(w, gx),
{
    let s = w / gx;
    assert(s >= 1) by (nonlinear_arith)
        requires
            gx >= 1,
            w >= gx,
            s == w / gx,
    ;
    assert(gx * s <= w) by (nonlinear_arith)
        requires
            gx >= 1,
            s == w / gx,
    ;
    assert(0 <= t * s) by (nonlinear_arith)
        requires
            t >= 0,
            s >= 1,
    ;
    assert((t + 1) * s == t * s + s) by (nonlinear_arith);
    assert((t + 1) * s <= gx * s) by (nonlinear_arith)
        requires
            t + 1 <= gx,
            s >= 1,
    ;
}

/// Counts the pixels of each intensity in columns `x0..x1` of rows `y0..y1`.
pub fn rect_histogram(img: &[u8], w: usize, x0: usize, x1: usize, y0: usize, y1: usize) -> (r: Vec<u128>)
    requires
        x0 <= x1 <= w,
        y0 <= y1,
        y1 * w <= img@.len(),
    ensures
        r@.len() == 256,
        forall|v: int|
            0 <= v < 256 ==> r@[v] as int == count_rect(img@, w as int, x0 as int, x1 as int, y0 as int, y1 as int, v),
        forall|v: int| 0 <= v < 256 ==> r@[v] <= img@.len(),
{
    let len = img.len();
    let mut hist: Vec<u128> = vec![0u128; LEVELS];
    let mut y: usize = y0;
    while y < y1
        invariant
            x0 <= x1 <= w,
            y0 <= y <= y1,
            y1 * w <= img@.len(),
            len == img@.len(),
            hist@.len() == 256,
            forall|v: int|
                0 <= v < 256 ==> hist@[v] as int == count_rect(img@, w as int, x0 as int, x1 as int, y0 as int, y as int, v),
            forall|v: int| 0 <= v < 256 ==> hist@[v] <= y * w,
        decreases y1 - y,
    {
        assert((y + 1) * w <= y1 * w) by (nonlinear_arith)
            requires
                y < y1,
        ;
        assert((y + 1) * w == y * w + w) by (nonlinear_arith);
        let mut x: usize = x0;
        while x < x1
            invariant
                x0 <= x <= x1 <= w,
                y0 <= y < y1,
                (y + 1) * w <= y1 * w <= img@.len(),
                len == img@.len(),
                (y + 1) * w == y * w + w,
                hist@.len() == 256,
                forall|v: int|
                    0 <= v < 256 ==> hist@[v] as int == count_rect(img@, w as int, x0 as int, x1 as int, y0 as int, y as int, v)
                        + count_row(img@, w as int, y as int, x0 as int, x as int, v),
                forall|v: int| 0 <= v < 256 ==> hist@[v] <= y * w + x,
            decreases x1 - x,
        {
            assert(y * w + x < img@.len());
            let p = img[y * w + x] as usize;
            let c = hist[p];
            hist.set(p, c + 1);
            x = x + 1;
        }
        y = y + 1;
    }
    hist
}

/// A clip limit is a fixed-point number with this many units to one.
pub const CLIP_SCALE: u64 = 65536;

/// The integer bin cap that a clip limit (in units of `1 / CLIP_SCALE`) gives for
/// tiles of `nominal` pixels: `max(1, floor(limit * nominal / 256))`, or no cap
/// at all when the limit is not positive.
pub open spec fn clip_cap(clip: int, nominal: int) -> Option<int> {
    if clip > 0 {
        let c = clip * nominal / (256 * CLIP_SCALE as int);
        Some(if c < 1 { 1 } else { c })
    } else {
        None
    }
}

/// The values of a sequence of `u128`, as integers.
pub open spec fn ints(s: Seq<u128>) -> Seq<int> {
    Seq::new(s.len(), |i: int| s[i] as int)
}

/// What each bin holds above the cap.
pub open spec fn excess_of(h: Seq<int>, cap: int) -> Seq<int> {
    Seq::new(h.len(), |i: int| if h[i] > cap { h[i] - cap } else { 0 })
}

/// Each bin cut down to the cap.
pub open spec fn clipped(h: Seq<int>, cap: int) -> Seq<int> {
    Seq::new(h.len(), |i: int| if h[i] > cap { cap } else { h[i] })
}

/// The histogram after clipping each bin to `cap` and spreading the total excess
/// back over all 256 bins: every bin gets `excess / 256`, and the lowest
/// `excess % 256` bins get one more each. Favouring the low bins with the
/// remainder is deliberate: outputs stay bit-compatible with existing consumers.
pub open spec fn redistribute(h: Seq<int>, cap: int) -> Seq<int> {
    let e = seq_sum(excess_of(h, cap));
    Seq::new(
        h.len(),
        |i: int| clipped(h, cap)[i] + e / 256 + (if i < e % 256 { 1int } else { 0int }),
    )
}

/// The histogram that the cap, if any, leaves.
pub open spec fn capped_histogram(h: Seq<int>, cap: Option<int>) -> Seq<int> {
    match cap {
        Some(c) => redistribute(h, c),
        None => h,
    }
}

/// The cumulative distribution of a histogram: entry `i` sums bins `0..=i`.
pub open spec fn cdf(h: Seq<int>) -> Seq<int> {
    Seq::new(256, |i: int| prefix_sum(h, i + 1))
}

/// The first positive entry of `c` at or after index `i`, or 0 if there is none.
pub open spec fn first_positive(c: Seq<int>, i: int) -> int
    decreases 256 - i,
{
    if i >= 256 {
        0
    } else if c[i] > 0 {
        c[i]
    } else {
        first_positive(c, i + 1)
    }
}

/// `round(clamp((ci - m) / d * 255, 0, 255))`, rounding halves up, for `d > 0`.
pub open spec fn level(ci: int, m: int, d: int) -> int {
    if ci <= m {
        0
    } else {
        let r = (2 * (ci - m) * 255 + d) / (2 * d);
        if r > 255 {
            255
        } else {
            r
        }
    }
}

/// The remapping table of a tile with histogram `h` and `pixels` pixels: the
/// normalized cumulative distribution, or the identity when every pixel shares
/// the lowest occupied level.
pub open spec fn mapping_table(h: Seq<int>, pixels: int) -> Seq<int> {
    let c = cdf(h);
    let m = first_positive(c, 0);
    let d = pixels - m;
    Seq::new(256, |i: int| if d > 0 { level(c[i], m, d) } else { i })
}

/// The bound that every bin of a counted histogram keeps.
pub const BIN_BOUND: u128 = 0x1_0000_0000_0000_0000;

/// Cuts each bin to `cap` and spreads the excess back over all bins.
pub fn clip_and_redistribute(hist: &mut Vec<u128>, cap: u128)
    requires
        old(hist)@.len() == 256,
        forall|i: int| 0 <= i < 256 ==> old(hist)@[i] <= BIN_BOUND,
    ensures
        final(hist)@.len() == 256,
        ints(final(hist)@) == redistribute(ints(old(hist)@), cap as int),
        forall|i: int| 0 <= i < 256 ==> final(hist)@[i] <= 2 * BIN_BOUND + 1,
{
    let ghost h0 = ints(hist@);
    let ghost ex = excess_of(h0, cap as int);
    let mut excess: u128 = 0;
    let mut i: usize = 0;
    while i < LEVELS
        invariant
            0 <= i <= 256,
            hist@.len() == 256,
            old(hist)@.len() == 256,
            h0 == ints(old(hist)@),
            ex == excess_of(h0, cap as int),
            forall|j: int| 0 <= j < i ==> hist@[j] as int == clipped(h0, cap as int)[j],
            forall|j: int| i <= j < 256 ==> hist@[j] == old(hist)@[j],
            forall|j: int| 0 <= j < 256 ==> old(hist)@[j] <= BIN_BOUND,
            excess as int == prefix_sum(ex, i as int),
            excess <= i * BIN_BOUND,
        decreases 256 - i,
    {
        let b = hist[i];
        if b > cap {
            excess = excess + (b - cap);
            hist.set(i, cap);
        }
        i = i + 1;
    }
    let per_bin = excess / 256;
    let rem = excess % 256;
    assert(per_bin <= BIN_BOUND) by (nonlinear_arith)
        requires
            excess <= 256 * BIN_BOUND,
            per_bin == excess / 256,
    ;
    let ghost mid = hist@;
    assert forall|j: int| 0 <= j < 256 implies mid[j] <= BIN_BOUND by {
        assert(h0[j] == old(hist)@[j] as int);
    }
    let mut i: usize = 0;
    while i < LEVELS
        invariant
            0 <= i <= 256,
            hist@.len() == 256,
            mid.len() == 256,
            old(hist)@.len() == 256,
            h0 == ints(old(hist)@),
            per_bin <= BIN_BOUND,
            excess as int == seq_sum(excess_of(h0, cap as int)),
            per_bin == excess / 256,
            rem == excess % 256,
            excess <= 256 * BIN_BOUND,
            forall|j: int| 0 <= j < 256 ==> mid[j] as int == clipped(h0, cap as int)[j],
            forall|j: int| 0 <= j < 256 ==> mid[j] <= BIN_BOUND,
            forall|j: int| 0 <= j < i ==> hist@[j] as int == redistribute(h0, cap as int)[j],
            forall|j: int| 0 <= j < i ==> hist@[j] <= 2 * BIN_BOUND + 1,
            forall|j: int| i <= j < 256 ==> hist@[j] == mid[j],
        decreases 256 - i,
    {
        let b = hist[i];
        assert(b == mid[i as int]);
        let extra: u128 = if (i as u128) < rem { 1 } else { 0 };
        hist.set(i, b + per_bin + extra);
        i = i + 1;
    }
    assert(ints(hist@) =~= redistribute(h0, cap as int));
}

/// The remapping table of a tile from its (possibly clipped) histogram.
pub fn build_mapping_table(hist: &Vec<u128>, pixels: u128) -> (r: Vec<u8>)
    requires
        hist@.len() == 256,
        forall|i: int| 0 <= i < 256 ==> hist@[i] <= 2 * BIN_BOUND + 1,
        pixels <= BIN_BOUND,
    ensures
        r@.len() == 256,
        forall|i: int| 0 <= i < 256 ==> r@[i] as int == mapping_table(ints(hist@), pixels as int)[i],
{
    let ghost h = ints(hist@);
    let ghost c = cdf(h);
    let mut sums: Vec<u128> = Vec::new();
    let mut acc: u128 = 0;
    let mut i: usize = 0;
    while i < LEVELS
        invariant
            0 <= i <= 256,
            hist@.len() == 256,
            h == ints(hist@),
            c == cdf(h),
            forall|j: int| 0 <= j < 256 ==> hist@[j] <= 2 * BIN_BOUND + 1,
            sums@.len() == i,
            acc as int == prefix_sum(h, i as int),
            acc <= i * (2 * BIN_BOUND + 1),
            forall|j: int| 0 <= j < i ==> sums@[j] as int == c[j],
            forall|j: int| 0 <= j < i ==> sums@[j] <= 256 * (2 * BIN_BOUND + 1),
        decreases 256 - i,
    {
        assert((i + 1) * (2 * BIN_BOUND + 1) == i * (2 * BIN_BOUND + 1) + (2 * BIN_BOUND + 1)) by (nonlinear_arith);
        assert(i * (2 * BIN_BOUND + 1) <= 255 * (2 * BIN_BOUND + 1)) by (nonlinear_arith)
            requires
                i < 256,
        ;
        acc = acc + hist[i];
        sums.push(acc);
        i = i + 1;
    }
    let mut m: u128 = 0;
    let mut k: usize = 0;
    while k < LEVELS
        invariant_except_break
            m == 0,
            first_positive(c, 0) == first_positive(c, k as int),
        invariant
            0 <= k <= 256,
            sums@.len() == 256,
            forall|j: int| 0 <= j < 256 ==> sums@[j] as int == c[j],
        ensures
            m as int == first_positive(c, 0),
        decreases 256 - k,
    {
        if sums[k] > 0 {
            m = sums[k];
            break;
        }
        k = k + 1;
    }
    let mut table: Vec<u8> = Vec::new();
    let mut i: usize = 0;
    while i < LEVELS
        invariant
            0 <= i <= 256,
            sums@.len() == 256,
            forall|j: int| 0 <= j < 256 ==> sums@[j] as int == c[j],
            forall|j: int| 0 <= j < 256 ==> sums@[j] <= 256 * (2 * BIN_BOUND + 1),
            m as int == first_positive(c, 0),
            c == cdf(h),
            h == ints(hist@),
            pixels <= BIN_BOUND,
            table@.len() == i,
            forall|j: int| 0 <= j < i ==> table@[j] as int == mapping_table(h, pixels as int)[j],
        decreases 256 - i,
    {
        let v: u8 = if pixels > m {
            let d = pixels - m;
            let ci = sums[i];
            if ci <= m {
                0
            } else {
                let q = (2 * (ci - m) * 255 + d) / (2 * d);
                if q > 255 {
                    255
                } else {
                    q as u8
                }
            }
        } else {
            i as u8
        };
        table.push(v);
        i = i + 1;
    }
    table
}
} // verus!
