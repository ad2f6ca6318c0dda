use vstd::prelude::*;
use crate::sums::{
    lemma_prefix_sum_add, lemma_prefix_sum_const, lemma_prefix_sum_indicator, lemma_prefix_sum_monotonic,
    lemma_prefix_sum_single, prefix_sum, seq_sum,
};
use crate::histogram::{
    cdf, clipped, count_rect, count_row, excess_of, grid_fits, lemma_tile_bounds, level, mapping_table,
    redistribute, first_positive, tile_end, tile_histogram, tile_pixels, tile_start, tile_span, clip_cap, capped_histogram,
};
use crate::clahe::{
    blend4, centred_offset, clahe_and_downscale_result, clahe_result, downscaled_image, equalized_image,
    equalized_pixel, lemma_cell_of_offset, lemma_tile_index, next_cell, source_coord, tile_table, tile_tables,
};
use vstd::arithmetic::div_mod::lemma_div_is_ordered;

verus! {

/// Redistribution keeps the total count: clipping moves counts, never drops them.
pub proof fn lemma_redistribute_conserves(h: Seq<int>, cap: int)
    requires
        h.len() == 256,
    ensures
        seq_sum(redistribute(h, cap)) == seq_sum(h),
{
    let e = seq_sum(excess_of(h, cap));
    let c = clipped(h, cap);
    let per = Seq::new(256, |i: int| e / 256);
    let ind = Seq::new(256, |i: int| if i < e % 256 { 1int } else { 0int });
    let spread = Seq::new(256, |i: int| e / 256 + (if i < e % 256 { 1int } else { 0int }));
    let r = redistribute(h, cap);
    lemma_prefix_sum_add(h, c, excess_of(h, cap), 256);
    lemma_prefix_sum_add(r, c, spread, 256);
    lemma_prefix_sum_add(spread, per, ind, 256);
    lemma_prefix_sum_const(per, e / 256, 256);
    lemma_prefix_sum_indicator(ind, e % 256, 256);
}

/// Counting a row of `x - x0` pixels puts exactly `x - x0` into the bins.
proof fn lemma_row_total(img: Seq<u8>, w: int, y: int, x0: int, x: int)
    requires
        x0 <= x,
    ensures
        prefix_sum(Seq::new(256, |v: int| count_row(img, w, y, x0, x, v)), 256) == x - x0,
    decreases x - x0,
{
    if x > x0 {
        lemma_row_total(img, w, y, x0, x - 1);
        let p = img[y * w + x - 1] as int;
        let ind = Seq::new(256, |v: int| if p == v { 1int } else { 0int });
        lemma_prefix_sum_add(
            Seq::new(256, |v: int| count_row(img, w, y, x0, x, v)),
            Seq::new(256, |v: int| count_row(img, w, y, x0, x - 1, v)),
            ind,
            256,
        );
        lemma_prefix_sum_single(ind, p, 256);
    } else {
        lemma_prefix_sum_const(Seq::new(256, |v: int| count_row(img, w, y, x0, x, v)), 0, 256);
    }
}

/// Counting a rectangle puts exactly its area into the bins.
proof fn lemma_rect_total(img: Seq<u8>, w: int, x0: int, x1: int, y0: int, y: int)
    requires
        x0 <= x1,
        y0 <= y,
    ensures
        prefix_sum(Seq::new(256, |v: int| count_rect(img, w, x0, x1, y0, y, v)), 256) == (x1 - x0) * (y - y0),
    decreases y - y0,
{
    if y > y0 {
        lemma_rect_total(img, w, x0, x1, y0, y - 1);
        lemma_row_total(img, w, y - 1, x0, x1);
        lemma_prefix_sum_add(
            Seq::new(256, |v: int| count_rect(img, w, x0, x1, y0, y, v)),
            Seq::new(256, |v: int| count_rect(img, w, x0, x1, y0, y - 1, v)),
            Seq::new(256, |v: int| count_row(img, w, y - 1, x0, x1, v)),
            256,
        );
        assert((x1 - x0) * (y - y0) == (x1 - x0) * (y - 1 - y0) + (x1 - x0)) by (nonlinear_arith);
    } else {
        lemma_prefix_sum_const(Seq::new(256, |v: int| count_rect(img, w, x0, x1, y0, y, v)), 0, 256);
        assert((x1 - x0) * (y - y0) == 0) by (nonlinear_arith)
            requires
                y == y0,
        ;
    }
}

/// Conservation: every tile's histogram counts each of its pixels once, and
/// clipping with redistribution keeps that total, for any cap.
pub proof fn lemma_tile_conservation(img: Seq<u8>, w: int, h: int, gx: int, gy: int, tx: int, ty: int, cap: int)
    requires
        grid_fits(w, h, gx, gy),
        0 <= tx < gx,
        0 <= ty < gy,
    ensures
        seq_sum(tile_histogram(img, w, h, gx, gy, tx, ty)) == tile_pixels(w, h, gx, gy, tx, ty),
        seq_sum(redistribute(tile_histogram(img, w, h, gx, gy, tx, ty), cap)) == tile_pixels(w, h, gx, gy, tx, ty),
{
    lemma_tile_bounds(w, gx, tx);
    lemma_tile_bounds(h, gy, ty);
    let hist = tile_histogram(img, w, h, gx, gy, tx, ty);
    let x0 = tile_start(w, gx, tx);
    let x1 = tile_end(w, gx, tx);
    let y0 = tile_start(h, gy, ty);
    let y1 = tile_end(h, gy, ty);
    lemma_rect_total(img, w, x0, x1, y0, y1);
    assert(hist =~= Seq::new(256, |v: int| count_rect(img, w, x0, x1, y0, y1, v)));
    lemma_redistribute_conserves(hist, cap);
}


/// The cumulative distribution of a histogram with no negative bin never decreases.
pub proof fn lemma_cdf_monotonic(h: Seq<int>)
    requires
        h.len() == 256,
        forall|i: int| 0 <= i < 256 ==> h[i] >= 0,
    ensures
        forall|i: int, j: int| 0 <= i <= j < 256 ==> cdf(h)[i] <= cdf(h)[j],
{
    assert forall|i: int, j: int| 0 <= i <= j < 256 implies cdf(h)[i] <= cdf(h)[j] by {
        lemma_prefix_sum_monotonic(h, i + 1, j + 1);
    }
}

proof fn lemma_level_monotonic(ci: int, cj: int, m: int, d: int)
    requires
        ci <= cj,
        d > 0,
    ensures
        0 <= level(ci, m, d) <= level(cj, m, d),
{
    if cj > m {
        lemma_div_is_ordered(0, 2 * (cj - m) * 255 + d, 2 * d);
        if ci > m {
            lemma_div_is_ordered(2 * (ci - m) * 255 + d, 2 * (cj - m) * 255 + d, 2 * d);
        }
    }
}

/// The remapping table of a histogram with no negative bin never decreases.
pub proof fn lemma_table_monotonic(h: Seq<int>, pixels: int)
    requires
        h.len() == 256,
        forall|i: int| 0 <= i < 256 ==> h[i] >= 0,
    ensures
        forall|i: int, j: int|
            0 <= i <= j < 256 ==> mapping_table(h, pixels)[i] <= mapping_table(h, pixels)[j],
{
    lemma_cdf_monotonic(h);
    let c = cdf(h);
    assert forall|i: int, j: int|
        0 <= i <= j < 256 implies mapping_table(h, pixels)[i] <= mapping_table(h, pixels)[j] by {
        let m = crate::histogram::first_positive(c, 0);
        if pixels - m > 0 {
            lemma_level_monotonic(c[i], c[j], m, pixels - m);
        }
    }
}

proof fn lemma_count_row_nonneg(img: Seq<u8>, w: int, y: int, x0: int, x: int, v: int)
    ensures
        count_row(img, w, y, x0, x, v) >= 0,
    decreases x - x0,
{
    if x > x0 {
        lemma_count_row_nonneg(img, w, y, x0, x - 1, v);
    }
}

proof fn lemma_count_rect_nonneg(img: Seq<u8>, w: int, x0: int, x1: int, y0: int, y: int, v: int)
    ensures
        count_rect(img, w, x0, x1, y0, y, v) >= 0,
    decreases y - y0,
{
    if y > y0 {
        lemma_count_rect_nonneg(img, w, x0, x1, y0, y - 1, v);
        lemma_count_row_nonneg(img, w, y - 1, x0, x1, v);
    }
}

proof fn lemma_capped_nonneg(h: Seq<int>, cap: Option<int>)
    requires
        h.len() == 256,
        forall|i: int| 0 <= i < 256 ==> h[i] >= 0,
        cap matches Some(c) ==> c >= 0,
    ensures
        capped_histogram(h, cap).len() == 256,
        forall|i: int| 0 <= i < 256 ==> capped_histogram(h, cap)[i] >= 0,
{
    if let Some(c) = cap {
        let ex = excess_of(h, c);
        lemma_prefix_sum_monotonic(ex, 0, 256);
        let e = seq_sum(ex);
        assert(e / 256 >= 0) by (nonlinear_arith)
            requires
                e >= 0,
        ;
    }
}

/// No entry of `s` is above a later one.
pub open spec fn non_decreasing(s: Seq<int>) -> bool {
    forall|i: int, j: int| 0 <= i <= j < s.len() ==> #[trigger] s[i] <= #[trigger] s[j]
}

/// Monotonic mapping: in every tile the cumulative distribution, before and
/// after clipping, and the remapping table built from it never decrease in
/// intensity.
pub proof fn lemma_tile_table_monotonic(img: Seq<u8>, w: int, h: int, gx: int, gy: int, clip: int, tx: int, ty: int)
    requires
        grid_fits(w, h, gx, gy),
        0 <= tx < gx,
        0 <= ty < gy,
    ensures
        non_decreasing(cdf(tile_histogram(img, w, h, gx, gy, tx, ty))),
        non_decreasing(
            cdf(
                capped_histogram(
                    tile_histogram(img, w, h, gx, gy, tx, ty),
                    clip_cap(clip, tile_span(w, gx) * tile_span(h, gy)),
                ),
            ),
        ),
        non_decreasing(tile_table(img, w, h, gx, gy, clip, tx, ty)),
{
    let hist = tile_histogram(img, w, h, gx, gy, tx, ty);
    assert forall|i: int| 0 <= i < 256 implies hist[i] >= 0 by {
        lemma_count_rect_nonneg(
            img,
            w,
            tile_start(w, gx, tx),
            tile_end(w, gx, tx),
            tile_start(h, gy, ty),
            tile_end(h, gy, ty),
            i,
        );
    }
    let cap = clip_cap(clip, tile_span(w, gx) * tile_span(h, gy));
    lemma_capped_nonneg(hist, cap);
    lemma_cdf_monotonic(hist);
    lemma_cdf_monotonic(capped_histogram(hist, cap));
    lemma_table_monotonic(capped_histogram(hist, cap), tile_pixels(w, h, gx, gy, tx, ty));
}

/// No-clip equivalence: a clip limit that is not positive gives plain
/// per-tile histogram equalization, with the same tile grid, tile by tile and
/// for the whole image alike.
pub proof fn lemma_no_clip_equivalence(img: Seq<u8>, w: int, h: int, gx: int, gy: int, clip: int)
    requires
        clip <= 0,
    ensures
        forall|tx: int, ty: int|
            #[trigger] tile_table(img, w, h, gx, gy, clip, tx, ty) == mapping_table(
                tile_histogram(img, w, h, gx, gy, tx, ty),
                tile_pixels(w, h, gx, gy, tx, ty),
            ),
        clahe_result(img, w, h, gx, gy, clip) == clahe_result(img, w, h, gx, gy, 0),
{
    assert(tile_tables(img, w, h, gx, gy, clip) =~= tile_tables(img, w, h, gx, gy, 0));
    assert(equalized_image(img, w, h, gx, gy, clip) =~= equalized_image(img, w, h, gx, gy, 0));
}

/// Downscale passthrough: asking for a target at least as large as the source
/// on both axes gives exactly the full-resolution result.
pub proof fn lemma_downscale_passthrough(img: Seq<u8>, w: int, h: int, tw: int, th: int, gx: int, gy: int, clip: int)
    requires
        tw >= w,
        th >= h,
    ensures
        clahe_and_downscale_result(img, w, h, tw, th, gx, gy, clip) == clahe_result(img, w, h, gx, gy, clip),
{
}

/// Every pixel of `img` has intensity `v`.
pub open spec fn is_flat(img: Seq<u8>, v: u8) -> bool {
    forall|i: int| 0 <= i < img.len() ==> #[trigger] img[i] == v
}

proof fn lemma_first_positive_spike(c: Seq<int>, p: int, i: int)
    requires
        0 <= i <= p < 256,
        c[p] > 0,
        forall|k: int| 0 <= k < p ==> c[k] == 0,
    ensures
        first_positive(c, i) == c[p],
    decreases p - i,
{
    if i < p {
        lemma_first_positive_spike(c, p, i + 1);
    }
}

/// A histogram whose only occupied bin is `v` gives the identity table.
proof fn lemma_spike_table(hist: Seq<int>, v: int, pixels: int)
    requires
        hist.len() == 256,
        0 <= v < 256,
        pixels > 0,
        forall|u: int| 0 <= u < 256 ==> hist[u] == (if u == v { pixels } else { 0 }),
    ensures
        forall|u: int| 0 <= u < 256 ==> mapping_table(hist, pixels)[u] == u,
{
    let c = cdf(hist);
    assert forall|i: int| 0 <= i < 256 implies c[i] == (if v <= i { pixels } else { 0 }) by {
        lemma_prefix_sum_single(hist, v, i + 1);
    }
    lemma_first_positive_spike(c, v, 0);
}

/// The last tile on each axis, which absorbs the remainder, is the largest.
proof fn lemma_last_tile_largest(w: int, h: int, gx: int, gy: int, tx: int, ty: int)
    requires
        grid_fits(w, h, gx, gy),
        0 <= tx < gx,
        0 <= ty < gy,
    ensures
        0 < tile_pixels(w, h, gx, gy, tx, ty) <= tile_pixels(w, h, gx, gy, gx - 1, gy - 1),
{
    lemma_tile_bounds(w, gx, tx);
    lemma_tile_bounds(h, gy, ty);
    lemma_tile_bounds(w, gx, gx - 1);
    lemma_tile_bounds(h, gy, gy - 1);
    let a = tile_end(w, gx, tx) - tile_start(w, gx, tx);
    let b = tile_end(h, gy, ty) - tile_start(h, gy, ty);
    let la = tile_end(w, gx, gx - 1) - tile_start(w, gx, gx - 1);
    let lb = tile_end(h, gy, gy - 1) - tile_start(h, gy, gy - 1);
    if tx != gx - 1 {
        assert((tx + 1) * tile_span(w, gx) == tx * tile_span(w, gx) + tile_span(w, gx)) by (nonlinear_arith);
    }
    if ty != gy - 1 {
        assert((ty + 1) * tile_span(h, gy) == ty * tile_span(h, gy) + tile_span(h, gy)) by (nonlinear_arith);
    }
    assert(a <= la);
    assert(b <= lb);
    assert(0 < a * b <= la * lb) by (nonlinear_arith)
        requires
            1 <= a <= la,
            1 <= b <= lb,
    ;
}

/// No bin of any tile is cut: clipping is off, or the cap reaches the largest tile.
pub open spec fn clip_never_cuts(w: int, h: int, gx: int, gy: int, clip: int) -> bool {
    clip_cap(clip, tile_span(w, gx) * tile_span(h, gy)) matches Some(c) ==> c >= tile_pixels(
        w,
        h,
        gx,
        gy,
        gx - 1,
        gy - 1,
    )
}

/// Flat-tile identity: a tile whose pixels all share one intensity gets the
/// identity table when clipping cuts none of its bins.
pub proof fn lemma_flat_tile_identity(img: Seq<u8>, w: int, h: int, gx: int, gy: int, clip: int, tx: int, ty: int, v: u8)
    requires
        grid_fits(w, h, gx, gy),
        img.len() == w * h,
        0 <= tx < gx,
        0 <= ty < gy,
        forall|x: int, y: int|
            tile_start(w, gx, tx) <= x < tile_end(w, gx, tx) && tile_start(h, gy, ty) <= y < tile_end(h, gy, ty)
                ==> #[trigger] img[y * w + x] == v,
        clip_cap(clip, tile_span(w, gx) * tile_span(h, gy)) matches Some(c) ==> c >= tile_pixels(w, h, gx, gy, tx, ty),
    ensures
        forall|u: int| 0 <= u < 256 ==> tile_table(img, w, h, gx, gy, clip, tx, ty)[u] == u,
{
    lemma_tile_bounds(w, gx, tx);
    lemma_tile_bounds(h, gy, ty);
    lemma_last_tile_largest(w, h, gx, gy, tx, ty);
    let x0 = tile_start(w, gx, tx);
    let x1 = tile_end(w, gx, tx);
    let y0 = tile_start(h, gy, ty);
    let y1 = tile_end(h, gy, ty);
    let pixels = tile_pixels(w, h, gx, gy, tx, ty);
    let hist = tile_histogram(img, w, h, gx, gy, tx, ty);
    assert forall|u: int| 0 <= u < 256 implies hist[u] == (if u == v as int { pixels } else { 0 }) by {
        lemma_tile_rect_count(img, w, h, x0, x1, y0, y1, y1, u, v);
    }
    let cap = clip_cap(clip, tile_span(w, gx) * tile_span(h, gy));
    if let Some(c) = cap {
        lemma_prefix_sum_const(excess_of(hist, c), 0, 256);
        assert(redistribute(hist, c) =~= hist);
    }
    assert(capped_histogram(hist, cap) == hist);
    lemma_spike_table(hist, v as int, pixels);
}

/// Counts over a rectangle whose pixels all equal `v`.
proof fn lemma_tile_rect_count(img: Seq<u8>, w: int, h: int, x0: int, x1: int, y0: int, y1: int, y: int, u: int, v: u8)
    requires
        img.len() == w * h,
        0 <= x0 <= x1 <= w,
        0 <= y0 <= y <= y1 <= h,
        forall|x: int, yy: int| x0 <= x < x1 && y0 <= yy < y1 ==> #[trigger] img[yy * w + x] == v,
    ensures
        count_rect(img, w, x0, x1, y0, y, u) == (if u == v as int { (x1 - x0) * (y - y0) } else { 0 }),
    decreases y - y0,
{
    if y > y0 {
        lemma_tile_rect_count(img, w, h, x0, x1, y0, y1, y - 1, u, v);
        lemma_tile_row_count(img, w, x0, x1, y0, y1, y - 1, x1, u, v);
        assert((x1 - x0) * (y - y0) == (x1 - x0) * (y - 1 - y0) + (x1 - x0)) by (nonlinear_arith);
    } else {
        assert((x1 - x0) * (y - y0) == 0) by (nonlinear_arith)
            requires
                y == y0,
        ;
    }
}

proof fn lemma_tile_row_count(img: Seq<u8>, w: int, x0: int, x1: int, y0: int, y1: int, y: int, x: int, u: int, v: u8)
    requires
        x0 <= x <= x1,
        y0 <= y < y1,
        forall|xx: int, yy: int| x0 <= xx < x1 && y0 <= yy < y1 ==> #[trigger] img[yy * w + xx] == v,
    ensures
        count_row(img, w, y, x0, x, u) == (if u == v as int { x - x0 } else { 0 }),
    decreases x - x0,
{
    if x > x0 {
        lemma_tile_row_count(img, w, x0, x1, y0, y1, y, x - 1, u, v);
        assert(img[y * w + (x - 1)] == v);
        assert(y * w + (x - 1) == y * w + x - 1);
    }
}

/// Blending four equal values gives that value back.
proof fn lemma_blend_equal(v: int, dx: int, dy: int, rx: int, ry: int)
    requires
        0 <= v <= 255,
        0 <= rx < dx,
        0 <= ry < dy,
    ensures
        blend4(v, v, v, v, dx, dy, rx, ry) == v,
{
    let a = dx * dy;
    let b = v * (dx - rx) * (dy - ry) + v * rx * (dy - ry) + v * (dx - rx) * ry + v * rx * ry;
    assert(b == v * a) by (nonlinear_arith)
        requires
            a == dx * dy,
            b == v * (dx - rx) * (dy - ry) + v * rx * (dy - ry) + v * (dx - rx) * ry + v * rx * ry,
    ;
    assert(a > 0) by (nonlinear_arith)
        requires
            a == dx * dy,
            dx > 0,
            dy > 0,
    ;
    assert((2 * (v * a) + a) / (2 * a) == v) by (nonlinear_arith)
        requires
            a > 0,
            v >= 0,
    ;
}

/// In a flat image every tile's table is the identity.
proof fn lemma_flat_tables(img: Seq<u8>, w: int, h: int, gx: int, gy: int, clip: int, v: u8)
    requires
        grid_fits(w, h, gx, gy),
        img.len() == w * h,
        is_flat(img, v),
        clip_never_cuts(w, h, gx, gy, clip),
    ensures
        forall|t: int, u: int|
            0 <= t < gx * gy && 0 <= u < 256 ==> #[trigger] tile_tables(img, w, h, gx, gy, clip)[t][u] == u,
{
    assert forall|t: int, u: int| 0 <= t < gx * gy && 0 <= u < 256 implies #[trigger] tile_tables(
        img,
        w,
        h,
        gx,
        gy,
        clip,
    )[t][u] == u by {
        let tx = t % gx;
        let ty = t / gx;
        assert(0 <= tx < gx && 0 <= ty < gy) by (nonlinear_arith)
            requires
                0 <= t < gx * gy,
                gx >= 1,
                tx == t % gx,
                ty == t / gx,
        ;
        lemma_tile_bounds(w, gx, tx);
        lemma_tile_bounds(h, gy, ty);
        lemma_last_tile_largest(w, h, gx, gy, tx, ty);
        assert forall|x: int, y: int|
            tile_start(w, gx, tx) <= x < tile_end(w, gx, tx) && tile_start(h, gy, ty) <= y < tile_end(h, gy, ty)
                implies #[trigger] img[y * w + x] == v by {
            assert(0 <= y * w + x < w * h) by (nonlinear_arith)
                requires
                    0 <= x < w,
                    0 <= y < h,
            ;
        }
        lemma_flat_tile_identity(img, w, h, gx, gy, clip, tx, ty, v);
    }
}

/// In a flat image every pixel equalizes to the image's own intensity.
proof fn lemma_flat_pixel(img: Seq<u8>, w: int, h: int, gx: int, gy: int, clip: int, v: u8, x: int, y: int)
    requires
        grid_fits(w, h, gx, gy),
        img.len() == w * h,
        is_flat(img, v),
        clip_never_cuts(w, h, gx, gy, clip),
        0 <= x < w,
        0 <= y < h,
    ensures
        equalized_pixel(img, w, h, gx, gy, clip, x, y) == v as int,
{
    lemma_flat_tables(img, w, h, gx, gy, clip, v);
    lemma_tile_bounds(w, gx, 0);
    lemma_tile_bounds(h, gy, 0);
    assert(0 <= y * w + x < w * h) by (nonlinear_arith)
        requires
            0 <= x < w,
            0 <= y < h,
    ;
    assert(img[y * w + x] == v);
    let sx = tile_span(w, gx);
    let sy = tile_span(h, gy);
    let dx = 2 * sx;
    let dy = 2 * sy;
    let ax = centred_offset(x, sx, gx);
    let ay = centred_offset(y, sy, gy);
    lemma_cell_of_offset(ax, dx, gx);
    lemma_cell_of_offset(ay, dy, gy);
    let tx0 = ax / dx;
    let ty0 = ay / dy;
    let tx1 = next_cell(tx0, gx);
    let ty1 = next_cell(ty0, gy);
    lemma_tile_index(ty0, tx0, gx, gy);
    lemma_tile_index(ty0, tx1, gx, gy);
    lemma_tile_index(ty1, tx0, gx, gy);
    lemma_tile_index(ty1, tx1, gx, gy);
    let tables = tile_tables(img, w, h, gx, gy, clip);
    assert(tables[ty0 * gx + tx0][v as int] == v as int);
    assert(tables[ty0 * gx + tx1][v as int] == v as int);
    assert(tables[ty1 * gx + tx0][v as int] == v as int);
    assert(tables[ty1 * gx + tx1][v as int] == v as int);
    lemma_blend_equal(v as int, dx, dy, ax % dx, ay % dy);
}

/// A flat image, with clipping that cuts no bin, comes back unchanged from
/// equalization at full resolution, and as a flat image of the target size
/// from the resampling variant when it resamples.
pub proof fn lemma_flat_image(img: Seq<u8>, w: int, h: int, gx: int, gy: int, clip: int, v: u8)
    requires
        grid_fits(w, h, gx, gy),
        img.len() == w * h,
        is_flat(img, v),
        clip_never_cuts(w, h, gx, gy, clip),
    ensures
        clahe_result(img, w, h, gx, gy, clip) == Ok::<Seq<u8>, crate::clahe::ClaheError>(Seq::new((w * h) as nat, |i: int| v)),
        forall|tw: int, th: int|
            tw >= 1 && th >= 1 && !(tw >= w && th >= h) ==> #[trigger] clahe_and_downscale_result(img, w, h, tw, th, gx, gy, clip) == Ok::<
                Seq<u8>,
                crate::clahe::ClaheError,
            >(Seq::new((tw * th) as nat, |i: int| v)),
{
    assert forall|i: int| 0 <= i < w * h implies #[trigger] equalized_image(img, w, h, gx, gy, clip)[i] == v by {
        assert(0 <= i % w < w && 0 <= i / w < h) by (nonlinear_arith)
            requires
                0 <= i < w * h,
                w >= 1,
        ;
        lemma_flat_pixel(img, w, h, gx, gy, clip, v, i % w, i / w);
    }
    assert(equalized_image(img, w, h, gx, gy, clip) =~= Seq::new((w * h) as nat, |i: int| v));
    assert forall|tw: int, th: int| tw >= 1 && th >= 1 && !(tw >= w && th >= h) implies #[trigger] clahe_and_downscale_result(
        img,
        w,
        h,
        tw,
        th,
        gx,
        gy,
        clip,
    ) == Ok::<Seq<u8>, crate::clahe::ClaheError>(Seq::new((tw * th) as nat, |i: int| v)) by {
        if !(tw >= w && th >= h) {
            assert forall|i: int| 0 <= i < tw * th implies #[trigger] downscaled_image(
                img,
                w,
                h,
                tw,
                th,
                gx,
                gy,
                clip,
            )[i] == v by {
                assert(0 <= i % tw < tw && 0 <= i / tw < th) by (nonlinear_arith)
                    requires
                        0 <= i < tw * th,
                        tw >= 1,
                ;
                let ox = i % tw;
                let oy = i / tw;
                assert((2 * ox + 1) * w / (2 * tw) >= 0) by (nonlinear_arith)
                    requires
                        ox >= 0,
                        w >= 1,
                        tw >= 1,
                ;
                assert((2 * oy + 1) * h / (2 * th) >= 0) by (nonlinear_arith)
                    requires
                        oy >= 0,
                        h >= 1,
                        th >= 1,
                ;
                lemma_flat_pixel(img, w, h, gx, gy, clip, v, source_coord(ox, w, tw), source_coord(oy, h, th));
            }
            assert(downscaled_image(img, w, h, tw, th, gx, gy, clip) =~= Seq::new((tw * th) as nat, |i: int| v));
        }
    }
}

/// Every entry of a remapping table is an intensity.
proof fn lemma_table_range(hist: Seq<int>, pixels: int)
    ensures
        forall|u: int| 0 <= u < 256 ==> 0 <= #[trigger] mapping_table(hist, pixels)[u] <= 255,
{
    let c = cdf(hist);
    let m = first_positive(c, 0);
    assert forall|u: int| 0 <= u < 256 implies 0 <= #[trigger] mapping_table(hist, pixels)[u] <= 255 by {
        if pixels - m > 0 {
            lemma_level_monotonic(c[u], c[u], m, pixels - m);
        }
    }
}

/// Range: every equalized pixel is an intensity in `[0, 255]`, before it is
/// stored as a byte.
pub proof fn lemma_pixel_range(img: Seq<u8>, w: int, h: int, gx: int, gy: int, clip: int, x: int, y: int)
    requires
        grid_fits(w, h, gx, gy),
        img.len() == w * h,
        0 <= x < w,
        0 <= y < h,
    ensures
        0 <= equalized_pixel(img, w, h, gx, gy, clip, x, y) <= 255,
{
    lemma_tile_bounds(w, gx, 0);
    lemma_tile_bounds(h, gy, 0);
    let sx = tile_span(w, gx);
    let sy = tile_span(h, gy);
    let dx = 2 * sx;
    let dy = 2 * sy;
    let ax = centred_offset(x, sx, gx);
    let ay = centred_offset(y, sy, gy);
    lemma_cell_of_offset(ax, dx, gx);
    lemma_cell_of_offset(ay, dy, gy);
    let tx0 = ax / dx;
    let ty0 = ay / dy;
    let tx1 = next_cell(tx0, gx);
    let ty1 = next_cell(ty0, gy);
    let rx = ax % dx;
    let ry = ay % dy;
    lemma_tile_index(ty0, tx0, gx, gy);
    lemma_tile_index(ty0, tx1, gx, gy);
    lemma_tile_index(ty1, tx0, gx, gy);
    lemma_tile_index(ty1, tx1, gx, gy);
    assert(0 <= y * w + x < w * h) by (nonlinear_arith)
        requires
            0 <= x < w,
            0 <= y < h,
    ;
    let v = img[y * w + x] as int;
    let tables = tile_tables(img, w, h, gx, gy, clip);
    let t00 = ty0 * gx + tx0;
    let t10 = ty0 * gx + tx1;
    let t01 = ty1 * gx + tx0;
    let t11 = ty1 * gx + tx1;
    assert forall|t: int| 0 <= t < gx * gy implies 0 <= #[trigger] tables[t][v] <= 255 by {
        let tx = t % gx;
        let ty = t / gx;
        let nominal = tile_span(w, gx) * tile_span(h, gy);
        lemma_table_range(
            capped_histogram(tile_histogram(img, w, h, gx, gy, tx, ty), clip_cap(clip, nominal)),
            tile_pixels(w, h, gx, gy, tx, ty),
        );
    }
    let (a, b, c, d) = (tables[t00][v], tables[t10][v], tables[t01][v], tables[t11][v]);
    let s = a * (dx - rx) * (dy - ry) + b * rx * (dy - ry) + c * (dx - rx) * ry + d * rx * ry;
    assert(s >= 0) by (nonlinear_arith)
        requires
            a >= 0,
            b >= 0,
            c >= 0,
            d >= 0,
            0 <= rx < dx,
            0 <= ry < dy,
            s == a * (dx - rx) * (dy - ry) + b * rx * (dy - ry) + c * (dx - rx) * ry + d * rx * ry,
    ;
    assert(dx * dy > 0) by (nonlinear_arith)
        requires
            dx > 0,
            dy > 0,
    ;
    assert((2 * s + dx * dy) / (2 * (dx * dy)) >= 0) by (nonlinear_arith)
        requires
            s >= 0,
            dx * dy > 0,
    ;
}
} // verus!
