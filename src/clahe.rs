use vstd::prelude::*;
use crate::histogram::{
    build_mapping_table, capped_histogram, clip_and_redistribute, clip_cap, grid_fits, ints,
    lemma_tile_bounds, mapping_table, rect_histogram, tile_end, tile_histogram, tile_pixels,
    tile_span, tile_start, CLIP_SCALE,
};

verus! {

/// Why an equalization call was refused before any work was done.
#[derive(Debug, Clone, Copy, PartialEq, Eq, Structural)]
pub enum ClaheError {
    /// The buffer does not hold exactly `width * height` bytes.
    InvalidBufferLength,
    /// A size is zero, or the tile grid has more tiles than pixels on an axis.
    InvalidDimensions,
}

/// The remapping table of tile `(tx, ty)`: its histogram, capped as the clip
/// limit asks, turned into a normalized cumulative distribution. The cap comes
/// from the nominal tile size; the normalization uses the tile's true size.
pub open spec fn tile_table(img: Seq<u8>, w: int, h: int, gx: int, gy: int, clip: int, tx: int, ty: int) -> Seq<int> {
    let nominal = tile_span(w, gx) * tile_span(h, gy);
    mapping_table(
        capped_histogram(tile_histogram(img, w, h, gx, gy, tx, ty), clip_cap(clip, nominal)),
        tile_pixels(w, h, gx, gy, tx, ty),
    )
}

/// The tables of all tiles, tile `(tx, ty)` at index `ty * gx + tx`.
pub open spec fn tile_tables(img: Seq<u8>, w: int, h: int, gx: int, gy: int, clip: int) -> Seq<Seq<int>> {
    Seq::new((gx * gy) as nat, |t: int| tile_table(img, w, h, gx, gy, clip, t % gx, t / gx))
}

/// `tables` holds the entries of `spec_tables`, one 256-entry table per tile.
pub open spec fn tables_match(tables: Seq<Vec<u8>>, spec_tables: Seq<Seq<int>>) -> bool {
    &&& tables.len() == spec_tables.len()
    &&& forall|t: int| 0 <= t < tables.len() ==> (#[trigger] tables[t])@.len() == 256
    &&& forall|t: int, v: int|
        0 <= t < tables.len() && 0 <= v < 256 ==> (#[trigger] tables[t]@[v]) as int == spec_tables[t][v]
}

/// Position of pixel `p` on an axis in tile units, shifted by half a tile so
/// that tile centres sit on whole numbers and clamped to the first and last
/// centre; the result is in units of `1 / (2 * span)`.
pub open spec fn centred_offset(p: int, span: int, cells: int) -> int {
    let a = 2 * p - span;
    if a < 0 {
        0
    } else if a > 2 * span * (cells - 1) {
        2 * span * (cells - 1)
    } else {
        a
    }
}

/// The tile after `c` on an axis, or `c` itself at the last one.
pub open spec fn next_cell(c: int, cells: int) -> int {
    if c + 1 < cells {
        c + 1
    } else {
        cells - 1
    }
}

/// The value that intensity `v` at pixel `(x, y)` takes: the four surrounding
/// tiles' tables, blended bilinearly by the pixel's offset from their centres,
/// rounded half up and clamped to `[0, 255]`.
pub open spec fn blend_pixel(tables: Seq<Seq<int>>, w: int, h: int, gx: int, gy: int, x: int, y: int, v: int) -> int {
    let dx = 2 * tile_span(w, gx);
    let dy = 2 * tile_span(h, gy);
    let ax = centred_offset(x, tile_span(w, gx), gx);
    let ay = centred_offset(y, tile_span(h, gy), gy);
    let tx0 = ax / dx;
    let ty0 = ay / dy;
    let rx = ax % dx;
    let ry = ay % dy;
    let tx1 = next_cell(tx0, gx);
    let ty1 = next_cell(ty0, gy);
    blend4(
        tables[ty0 * gx + tx0][v],
        tables[ty0 * gx + tx1][v],
        tables[ty1 * gx + tx0][v],
        tables[ty1 * gx + tx1][v],
        dx,
        dy,
        rx,
        ry,
    )
}

/// Four corner values blended with weights `(dx - rx) / dx`, `rx / dx` across and
/// `(dy - ry) / dy`, `ry / dy` down, rounded half up and clamped to `[0, 255]`.
pub open spec fn blend4(t00: int, t10: int, t01: int, t11: int, dx: int, dy: int, rx: int, ry: int) -> int {
    let b = t00 * (dx - rx) * (dy - ry) + t10 * rx * (dy - ry) + t01 * (dx - rx) * ry + t11 * rx * ry;
    let r = (2 * b + dx * dy) / (2 * (dx * dy));
    if r > 255 {
        255
    } else {
        r
    }
}

/// The equalized value of source pixel `(x, y)`.
pub open spec fn equalized_pixel(img: Seq<u8>, w: int, h: int, gx: int, gy: int, clip: int, x: int, y: int) -> int {
    blend_pixel(tile_tables(img, w, h, gx, gy, clip), w, h, gx, gy, x, y, img[y * w + x] as int)
}

/// The equalized image at full resolution.
pub open spec fn equalized_image(img: Seq<u8>, w: int, h: int, gx: int, gy: int, clip: int) -> Seq<u8> {
    Seq::new((w * h) as nat, |i: int| equalized_pixel(img, w, h, gx, gy, clip, i % w, i / w) as u8)
}

/// The source row (or column) that output row `o` of `t` samples from an axis of
/// `n` pixels: the centre of the output pixel, `(o + 0.5) * n / t - 0.5`, rounded
/// to the nearest source pixel. Nearest-neighbour sampling is deliberate: outputs
/// stay bit-compatible with existing consumers.
pub open spec fn source_coord(o: int, n: int, t: int) -> int {
    let s = (2 * o + 1) * n / (2 * t);
    if s > n - 1 {
        n - 1
    } else {
        s
    }
}

/// The equalized image resampled to `tw` by `th` pixels.
pub open spec fn downscaled_image(img: Seq<u8>, w: int, h: int, tw: int, th: int, gx: int, gy: int, clip: int) -> Seq<u8> {
    Seq::new(
        (tw * th) as nat,
        |i: int| equalized_pixel(img, w, h, gx, gy, clip, source_coord(i % tw, w, tw), source_coord(i / tw, h, th)) as u8,
    )
}

/// What `clahe` returns.
pub open spec fn clahe_result(img: Seq<u8>, w: int, h: int, gx: int, gy: int, clip: int) -> Result<Seq<u8>, ClaheError> {
    if !grid_fits(w, h, gx, gy) {
        Err(ClaheError::InvalidDimensions)
    } else if img.len() != w * h {
        Err(ClaheError::InvalidBufferLength)
    } else {
        Ok(equalized_image(img, w, h, gx, gy, clip))
    }
}

/// What `clahe_and_downscale` returns: the full-resolution result when the
/// target is at least as large on both axes, else the resampled one.
pub open spec fn clahe_and_downscale_result(
    img: Seq<u8>,
    w: int,
    h: int,
    tw: int,
    th: int,
    gx: int,
    gy: int,
    clip: int,
) -> Result<Seq<u8>, ClaheError> {
    if !grid_fits(w, h, gx, gy) || tw < 1 || th < 1 {
        Err(ClaheError::InvalidDimensions)
    } else if img.len() != w * h {
        Err(ClaheError::InvalidBufferLength)
    } else if tw >= w && th >= h {
        Ok(equalized_image(img, w, h, gx, gy, clip))
    } else {
        Ok(downscaled_image(img, w, h, tw, th, gx, gy, clip))
    }
}

/// The contents of a returned buffer, or the error.
pub open spec fn result_view(r: Result<Vec<u8>, ClaheError>) -> Result<Seq<u8>, ClaheError> {
    match r {
        Ok(v) => Ok(v@),
        Err(e) => Err(e),
    }
}

proof fn lemma_grid_le_image(w: int, h: int, gx: int, gy: int)
    requires
        grid_fits(w, h, gx, gy),
    ensures
        gx * gy <= w * h,
        tile_span(w, gx) * tile_span(h, gy) <= w * h,
{
    assert(gx * gy <= w * h) by (nonlinear_arith)
        requires
            1 <= gx <= w,
            1 <= gy <= h,
    ;
    lemma_tile_bounds(w, gx, 0);
    lemma_tile_bounds(h, gy, 0);
    let sx = tile_span(w, gx);
    let sy = tile_span(h, gy);
    assert(sx * sy <= w * h) by (nonlinear_arith)
        requires
            1 <= sx <= w,
            1 <= sy <= h,
    ;
}

/// Builds the remapping table of every tile.
fn build_tile_tables(img: &[u8], w: usize, h: usize, gx: usize, gy: usize, clip: i64) -> (r: Vec<Vec<u8>>)
    requires
        grid_fits(w as int, h as int, gx as int, gy as int),
        img@.len() == w * h,
    ensures
        tables_match(r@, tile_tables(img@, w as int, h as int, gx as int, gy as int, clip as int)),
{
    let len = img.len();
    proof {
        lemma_grid_le_image(w as int, h as int, gx as int, gy as int);
        lemma_tile_bounds(w as int, gx as int, 0);
        lemma_tile_bounds(h as int, gy as int, 0);
    }
    let sx = w / gx;
    let sy = h / gy;
    let nominal = sx * sy;
    let n = gx * gy;
    let ghost spec_tables = tile_tables(img@, w as int, h as int, gx as int, gy as int, clip as int);
    let mut tables: Vec<Vec<u8>> = Vec::new();
    let mut t: usize = 0;
    while t < n
        invariant
            grid_fits(w as int, h as int, gx as int, gy as int),
            img@.len() == w * h,
            len == img@.len(),
            n == gx * gy,
            sx == tile_span(w as int, gx as int),
            sy == tile_span(h as int, gy as int),
            nominal == sx * sy,
            spec_tables == tile_tables(img@, w as int, h as int, gx as int, gy as int, clip as int),
            0 <= t <= n,
            tables@.len() == t,
            forall|k: int| 0 <= k < t ==> (#[trigger] tables@[k])@.len() == 256,
            forall|k: int, v: int|
                0 <= k < t && 0 <= v < 256 ==> (#[trigger] tables@[k]@[v]) as int == spec_tables[k][v],
        decreases n - t,
    {
        let tx = t % gx;
        let ty = t / gx;
        assert(ty < gy) by (nonlinear_arith)
            requires
                t < gx * gy,
                ty == t / gx,
                gx >= 1,
        ;
        proof {
            lemma_tile_bounds(w as int, gx as int, tx as int);
            lemma_tile_bounds(h as int, gy as int, ty as int);
            assert(tx * sx <= w) by (nonlinear_arith)
                requires
                    tx < gx,
                    gx * sx <= w,
                    sx >= 1,
            ;
            assert(ty * sy <= h) by (nonlinear_arith)
                requires
                    ty < gy,
                    gy * sy <= h,
                    sy >= 1,
            ;
            assert((tx + 1) * sx == tx * sx + sx) by (nonlinear_arith);
            assert((ty + 1) * sy == ty * sy + sy) by (nonlinear_arith);
        }
        let x0 = tx * sx;
        let x1 = if tx == gx - 1 { w } else { x0 + sx };
        let y0 = ty * sy;
        let y1 = if ty == gy - 1 { h } else { y0 + sy };
        assert(x0 as int == tile_start(w as int, gx as int, tx as int));
        assert(x1 as int == tile_end(w as int, gx as int, tx as int));
        assert(y0 as int == tile_start(h as int, gy as int, ty as int));
        assert(y1 as int == tile_end(h as int, gy as int, ty as int));
        assert(y1 * w <= w * h) by (nonlinear_arith)
            requires
                y1 <= h,
        ;
        let mut hist = rect_histogram(img, w, x0, x1, y0, y1);
        let ghost h_raw = ints(hist@);
        assert(h_raw =~= tile_histogram(img@, w as int, h as int, gx as int, gy as int, tx as int, ty as int));
        if clip > 0 {
            assert((clip as u128) * (nominal as u128) <= 0x8000_0000_0000_0000u128 * 0x1_0000_0000_0000_0000u128) by (nonlinear_arith)
                requires
                    clip as u128 <= 0x8000_0000_0000_0000u128,
                    nominal as u128 <= 0x1_0000_0000_0000_0000u128,
            ;
            let c = (clip as u128) * (nominal as u128) / (256 * CLIP_SCALE as u128);
            let cap: u128 = if c < 1 { 1 } else { c };
            clip_and_redistribute(&mut hist, cap);
        }
        assert(ints(hist@) == capped_histogram(h_raw, clip_cap(clip as int, nominal as int)));
        assert((x1 - x0) * (y1 - y0) <= w * h) by (nonlinear_arith)
            requires
                0 <= x1 - x0 <= w,
                0 <= y1 - y0 <= h,
        ;
        let pixels = ((x1 - x0) * (y1 - y0)) as u128;
        let table = build_mapping_table(&hist, pixels);
        proof {
            assert(t as int % gx as int == tx as int);
            assert(t as int / gx as int == ty as int);
            assert(spec_tables[t as int] == tile_table(img@, w as int, h as int, gx as int, gy as int, clip as int, tx as int, ty as int));
        }
        tables.push(table);
        t = t + 1;
    }
    tables
}

/// The offset of pixel `p` from the first tile centre, in units of `1 / d`
/// where `d = 2 * span`; see `centred_offset`.
fn centred_offset_of(p: usize, span: usize, cells: usize) -> (r: u128)
    requires
        span >= 1,
        cells >= 1,
        span * cells <= usize::MAX,
    ensures
        r as int == centred_offset(p as int, span as int, cells as int),
        r as int <= 2 * span * (cells - 1),
{
    assert(span * (cells - 1) <= span * cells) by (nonlinear_arith)
        requires
            span >= 1,
            cells >= 1,
    ;
    assert(2 * span * (cells - 1) <= 2 * usize::MAX) by (nonlinear_arith)
        requires
            span * (cells - 1) <= usize::MAX,
    ;
    let lim = 2 * (span as u128) * ((cells - 1) as u128);
    let a2 = 2 * (p as u128);
    if a2 < span as u128 {
        0
    } else if a2 - span as u128 > lim {
        lim
    } else {
        a2 - span as u128
    }
}

/// The tile index on an axis, and the remainder that weights it.
pub proof fn lemma_cell_of_offset(a: int, d: int, cells: int)
    requires
        d >= 1,
        cells >= 1,
        0 <= a <= d * (cells - 1),
    ensures
        0 <= a / d < cells,
        0 <= a % d < d,
{
    assert(a / d <= cells - 1) by (nonlinear_arith)
        requires
            d >= 1,
            0 <= a <= d * (cells - 1),
    ;
    assert(a / d >= 0) by (nonlinear_arith)
        requires
            d >= 1,
            a >= 0,
    ;
    assert(0 <= a % d < d) by (nonlinear_arith)
        requires
            d >= 1,
    ;
}

pub proof fn lemma_tile_index(ty: int, tx: int, gx: int, gy: int)
    requires
        0 <= tx < gx,
        0 <= ty < gy,
    ensures
        0 <= ty * gx + tx < gx * gy,
{
    assert(0 <= ty * gx + tx < gx * gy) by (nonlinear_arith)
        requires
            0 <= tx < gx,
            0 <= ty < gy,
    ;
}

/// The equalized value of pixel `(x, y)`, read from the tiles' tables.
fn equalized_pixel_at(
    img: &[u8],
    tables: &Vec<Vec<u8>>,
    w: usize,
    h: usize,
    gx: usize,
    gy: usize,
    clip: i64,
    x: usize,
    y: usize,
) -> (r: u8)
    requires
        grid_fits(w as int, h as int, gx as int, gy as int),
        img@.len() == w * h,
        x < w,
        y < h,
        tables_match(tables@, tile_tables(img@, w as int, h as int, gx as int, gy as int, clip as int)),
    ensures
        r as int == equalized_pixel(img@, w as int, h as int, gx as int, gy as int, clip as int, x as int, y as int),
{
    let len = img.len();
    let ghost spec_tables = tile_tables(img@, w as int, h as int, gx as int, gy as int, clip as int);
    proof {
        lemma_grid_le_image(w as int, h as int, gx as int, gy as int);
        lemma_tile_bounds(w as int, gx as int, 0);
        lemma_tile_bounds(h as int, gy as int, 0);
        assert(y * w + x < w * h) by (nonlinear_arith)
            requires
                x < w,
                y < h,
        ;
    }
    let sx = w / gx;
    let sy = h / gy;
    assert(sx * gx <= usize::MAX) by (nonlinear_arith)
        requires
            gx * sx <= w,
    ;
    assert(sy * gy <= usize::MAX) by (nonlinear_arith)
        requires
            gy * sy <= h,
    ;
    let dx = 2 * (sx as u128);
    let dy = 2 * (sy as u128);
    let ax = centred_offset_of(x, sx, gx);
    let ay = centred_offset_of(y, sy, gy);
    proof {
        lemma_cell_of_offset(ax as int, dx as int, gx as int);
        lemma_cell_of_offset(ay as int, dy as int, gy as int);
    }
    let tx0 = (ax / dx) as usize;
    let ty0 = (ay / dy) as usize;
    let rx = ax % dx;
    let ry = ay % dy;
    let tx1 = if tx0 + 1 < gx { tx0 + 1 } else { gx - 1 };
    let ty1 = if ty0 + 1 < gy { ty0 + 1 } else { gy - 1 };
    proof {
        lemma_tile_index(ty0 as int, tx0 as int, gx as int, gy as int);
        lemma_tile_index(ty0 as int, tx1 as int, gx as int, gy as int);
        lemma_tile_index(ty1 as int, tx0 as int, gx as int, gy as int);
        lemma_tile_index(ty1 as int, tx1 as int, gx as int, gy as int);
    }
    let v = img[y * w + x] as usize;
    let t00 = tables[ty0 * gx + tx0][v];
    let t10 = tables[ty0 * gx + tx1][v];
    let t01 = tables[ty1 * gx + tx0][v];
    let t11 = tables[ty1 * gx + tx1][v];
    assert(dx * dy <= 4 * 0x1_0000_0000_0000_0000u128) by (nonlinear_arith)
        requires
            dx == 2 * sx,
            dy == 2 * sy,
            sx * sy <= w * h,
            w * h <= usize::MAX,
            usize::MAX < 0x1_0000_0000_0000_0000u128,
    ;
    blend4_of(t00, t10, t01, t11, dx, dy, rx, ry)
}

fn blend4_of(t00: u8, t10: u8, t01: u8, t11: u8, dx: u128, dy: u128, rx: u128, ry: u128) -> (r: u8)
    requires
        1 <= dx,
        1 <= dy,
        rx < dx,
        ry < dy,
        dx * dy <= 4 * 0x1_0000_0000_0000_0000u128,
    ensures
        r as int == blend4(t00 as int, t10 as int, t01 as int, t11 as int, dx as int, dy as int, rx as int, ry as int),
{
    let wx0 = dx - rx;
    let wy0 = dy - ry;
    let area = dx * dy;
    let (a, b, c, d) = (t00 as u128, t10 as u128, t01 as u128, t11 as u128);
    assert(dx <= area && dy <= area) by (nonlinear_arith)
        requires
            1 <= dx,
            1 <= dy,
            area == dx * dy,
    ;
    assert(a * wx0 <= 255 * dx && b * rx <= 255 * dx && c * wx0 <= 255 * dx && d * rx <= 255 * dx)
        by (nonlinear_arith)
        requires
            a <= 255,
            b <= 255,
            c <= 255,
            d <= 255,
            wx0 <= dx,
            rx <= dx,
    ;
    assert(a * wx0 * wy0 <= 255 * area && b * rx * wy0 <= 255 * area && c * wx0 * ry <= 255 * area
        && d * rx * ry <= 255 * area) by (nonlinear_arith)
        requires
            a <= 255,
            b <= 255,
            c <= 255,
            d <= 255,
            wx0 <= dx,
            rx <= dx,
            wy0 <= dy,
            ry <= dy,
            area == dx * dy,
    ;
    assert(area >= 1) by (nonlinear_arith)
        requires
            1 <= dx,
            1 <= dy,
            area == dx * dy,
    ;
    let sum = a * wx0 * wy0 + b * rx * wy0 + c * wx0 * ry + d * rx * ry;
    let q = (2 * sum + area) / (2 * area);
    if q > 255 {
        255
    } else {
        q as u8
    }
}

/// The source coordinate that output coordinate `o` samples; see `source_coord`.
fn source_coord_of(o: usize, n: usize, t: usize) -> (r: usize)
    requires
        o < t,
        n >= 1,
        t <= usize::MAX / 2,
    ensures
        r as int == source_coord(o as int, n as int, t as int),
        r < n,
{
    assert((2 * o + 1) * n <= usize::MAX * usize::MAX) by (nonlinear_arith)
        requires
            2 * o + 1 <= usize::MAX,
            n <= usize::MAX,
    ;
    assert(usize::MAX * usize::MAX <= 0xffff_ffff_ffff_ffffu128 * 0xffff_ffff_ffff_ffffu128) by (nonlinear_arith)
        requires
            usize::MAX <= 0xffff_ffff_ffff_ffffu128,
    ;
    let s = ((2 * o + 1) as u128) * (n as u128) / (2 * (t as u128));
    if s > (n - 1) as u128 {
        n - 1
    } else {
        s as usize
    }
}

/// Contrast-limited adaptive histogram equalization of a `width` by `height`
/// image, with `tile_grid_x` by `tile_grid_y` tiles. `clip_limit` is in units of
/// `1 / CLIP_SCALE`; a limit that is not positive turns clipping off.
pub fn clahe(
    input: &[u8],
    width: usize,
    height: usize,
    tile_grid_x: usize,
    tile_grid_y: usize,
    clip_limit: i64,
) -> (r: Result<Vec<u8>, ClaheError>)
    ensures
        result_view(r) == clahe_result(input@, width as int, height as int, tile_grid_x as int, tile_grid_y as int, clip_limit as int),
{
    let (w, h, gx, gy) = (width, height, tile_grid_x, tile_grid_y);
    if gx == 0 || gy == 0 || w < gx || h < gy {
        return Err(ClaheError::InvalidDimensions);
    }
    let len = input.len();
    let n = match w.checked_mul(h) {
        Some(n) => n,
        None => {
            return Err(ClaheError::InvalidBufferLength);
        },
    };
    if n != len {
        return Err(ClaheError::InvalidBufferLength);
    }
    let tables = build_tile_tables(input, w, h, gx, gy, clip_limit);
    let ghost expected = equalized_image(input@, w as int, h as int, gx as int, gy as int, clip_limit as int);
    let mut output: Vec<u8> = Vec::new();
    let mut i: usize = 0;
    while i < n
        invariant
            grid_fits(w as int, h as int, gx as int, gy as int),
            n == w * h,
            input@.len() == n,
            tables_match(tables@, tile_tables(input@, w as int, h as int, gx as int, gy as int, clip_limit as int)),
            expected == equalized_image(input@, w as int, h as int, gx as int, gy as int, clip_limit as int),
            0 <= i <= n,
            output@.len() == i,
            forall|j: int| 0 <= j < i ==> output@[j] == expected[j],
        decreases n - i,
    {
        let x = i % w;
        let y = i / w;
        assert(y < h) by (nonlinear_arith)
            requires
                i < w * h,
                y == i / w,
                w >= 1,
        ;
        let p = equalized_pixel_at(input, &tables, w, h, gx, gy, clip_limit, x, y);
        output.push(p);
        i = i + 1;
    }
    assert(output@ =~= expected);
    Ok(output)
}

/// Equalizes as `clahe` does and resamples the result to `target_width` by
/// `target_height` in the same pass. The tables are built at the source
/// resolution; each output pixel takes the equalized value of the source pixel
/// nearest to its centre. When the target is at least as large as the source
/// on both axes, the result is exactly that of `clahe`.
pub fn clahe_and_downscale(
    input: &[u8],
    width: usize,
    height: usize,
    target_width: usize,
    target_height: usize,
    tile_grid_x: usize,
    tile_grid_y: usize,
    clip_limit: i64,
) -> (r: Result<Vec<u8>, ClaheError>)
    requires
        target_width <= usize::MAX / 2,
        target_height <= usize::MAX / 2,
        target_width * target_height <= usize::MAX,
    ensures
        result_view(r) == clahe_and_downscale_result(
            input@,
            width as int,
            height as int,
            target_width as int,
            target_height as int,
            tile_grid_x as int,
            tile_grid_y as int,
            clip_limit as int,
        ),
{
    let (w, h, tw, th, gx, gy) = (width, height, target_width, target_height, tile_grid_x, tile_grid_y);
    if gx == 0 || gy == 0 || w < gx || h < gy || tw == 0 || th == 0 {
        return Err(ClaheError::InvalidDimensions);
    }
    let len = input.len();
    let n = match w.checked_mul(h) {
        Some(n) => n,
        None => {
            return Err(ClaheError::InvalidBufferLength);
        },
    };
    if n != len {
        return Err(ClaheError::InvalidBufferLength);
    }
    if tw >= w && th >= h {
        return clahe(input, w, h, gx, gy, clip_limit);
    }
    let tables = build_tile_tables(input, w, h, gx, gy, clip_limit);
    let ghost expected = downscaled_image(input@, w as int, h as int, tw as int, th as int, gx as int, gy as int, clip_limit as int);
    let m = tw * th;
    let mut output: Vec<u8> = Vec::new();
    let mut i: usize = 0;
    while i < m
        invariant
            grid_fits(w as int, h as int, gx as int, gy as int),
            n == w * h,
            input@.len() == n,
            m == tw * th,
            tw >= 1,
            th >= 1,
            tw <= usize::MAX / 2,
            th <= usize::MAX / 2,
            tables_match(tables@, tile_tables(input@, w as int, h as int, gx as int, gy as int, clip_limit as int)),
            expected == downscaled_image(input@, w as int, h as int, tw as int, th as int, gx as int, gy as int, clip_limit as int),
            0 <= i <= m,
            output@.len() == i,
            forall|j: int| 0 <= j < i ==> output@[j] == expected[j],
        decreases m - i,
    {
        let ox = i % tw;
        let oy = i / tw;
        assert(oy < th) by (nonlinear_arith)
            requires
                i < tw * th,
                oy == i / tw,
                tw >= 1,
        ;
        let x = source_coord_of(ox, w, tw);
        let y = source_coord_of(oy, h, th);
        let p = equalized_pixel_at(input, &tables, w, h, gx, gy, clip_limit, x, y);
        output.push(p);
        i = i + 1;
    }
    assert(output@ =~= expected);
    Ok(output)
}
} // verus!
