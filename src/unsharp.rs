use vstd::prelude::*;
use crate::morphology::{clamp_index, window_index};

verus! {

/// The largest blur radius: it keeps every window sum well inside `u64`.
pub const MAX_RADIUS: usize = 65535;

/// The sum of the first `n` samples of the horizontal window of pixel `(x, y)`,
/// columns `x - r .. x - r + n` clamped to the row.
pub open spec fn row_sum(img: Seq<u8>, w: int, y: int, x: int, r: int, n: int) -> int
    decreases n,
{
    if n <= 0 {
        0
    } else {
        row_sum(img, w, y, x, r, n - 1) + img[y * w + clamp_index(x + n - 1 - r, w)] as int
    }
}

/// The sum of the first `n` samples of the vertical window of pixel `(x, y)`.
pub open spec fn column_sum(img: Seq<u8>, w: int, h: int, x: int, y: int, r: int, n: int) -> int
    decreases n,
{
    if n <= 0 {
        0
    } else {
        column_sum(img, w, h, x, y, r, n - 1) + img[clamp_index(y + n - 1 - r, h) * w + x] as int
    }
}

/// The sum over the first `n` rows of the square window of radius `r` centred
/// on `(x, y)`, rows and columns clamped to the image.
pub open spec fn square_sum(img: Seq<u8>, w: int, h: int, x: int, y: int, r: int, n: int) -> int
    decreases n,
{
    if n <= 0 {
        0
    } else {
        square_sum(img, w, h, x, y, r, n - 1) + row_sum(img, w, clamp_index(y + n - 1 - r, h), x, r, 2 * r + 1)
    }
}

/// The horizontal pass of the box blur: each pixel becomes the truncated mean of
/// its row window.
pub open spec fn row_blur(img: Seq<u8>, w: int, h: int, r: int) -> Seq<u8> {
    Seq::new((w * h) as nat, |i: int| (row_sum(img, w, i / w, i % w, r, 2 * r + 1) / (2 * r + 1)) as u8)
}

/// The separable box blur of radius `r`: a horizontal then a vertical pass of
/// truncated means, windows clamped at the image edges.
pub open spec fn box_blurred(img: Seq<u8>, w: int, h: int, r: int) -> Seq<u8> {
    let t = row_blur(img, w, h, r);
    Seq::new((w * h) as nat, |i: int| (column_sum(t, w, h, i % w, i / w, r, 2 * r + 1) / (2 * r + 1)) as u8)
}

fn mean_pass(img: &[u8], w: usize, h: usize, radius: usize, vertical: bool) -> (r: Vec<u8>)
    requires
        w * h <= img@.len(),
        radius <= MAX_RADIUS,
    ensures
        r@.len() == w * h,
        forall|i: int|
            0 <= i < w * h ==> r@[i] as int == (if vertical {
                column_sum(img@, w as int, h as int, i % (w as int), i / (w as int), radius as int, 2 * radius + 1)
            } else {
                row_sum(img@, w as int, i / (w as int), i % (w as int), radius as int, 2 * radius + 1)
            }) / (2 * radius + 1),
{
    let len = img.len();
    let n = w * h;
    let k = 2 * radius + 1;
    let mut out: Vec<u8> = Vec::new();
    let mut i: usize = 0;
    while i < n
        invariant
            n == w * h,
            n <= img@.len(),
            len == img@.len(),
            radius <= MAX_RADIUS,
            k == 2 * radius + 1,
            0 <= i <= n,
            out@.len() == i,
            forall|j: int|
                0 <= j < i ==> out@[j] as int == (if vertical {
                    column_sum(img@, w as int, h as int, j % (w as int), j / (w as int), radius as int, k as int)
                } else {
                    row_sum(img@, w as int, j / (w as int), j % (w as int), radius as int, k as int)
                }) / (k as int),
        decreases n - i,
    {
        let x = i % w;
        let y = i / w;
        assert(y < h) by (nonlinear_arith)
            requires
                i < w * h,
                y == i / w,
                w >= 1,
        ;
        let mut sum: u64 = 0;
        let mut s: usize = 0;
        while s < k
            invariant
                n == w * h,
                n <= img@.len(),
                x < w,
                y < h,
                k == 2 * radius + 1,
                radius <= MAX_RADIUS,
                0 <= s <= k,
                sum <= 255 * s,
                sum as int == (if vertical {
                    column_sum(img@, w as int, h as int, x as int, y as int, radius as int, s as int)
                } else {
                    row_sum(img@, w as int, y as int, x as int, radius as int, s as int)
                }),
            decreases k - s,
        {
            let idx = if vertical {
                let ny = window_index(y, s, radius, h);
                assert(ny * w + x < w * h) by (nonlinear_arith)
                    requires
                        ny < h,
                        x < w,
                ;
                ny * w + x
            } else {
                let nx = window_index(x, s, radius, w);
                assert(y * w + nx < w * h) by (nonlinear_arith)
                    requires
                        y < h,
                        nx < w,
                ;
                y * w + nx
            };
            sum = sum + img[idx] as u64;
            s = s + 1;
        }
        assert(sum / (k as u64) <= 255) by (nonlinear_arith)
            requires
                sum <= 255 * k,
                k >= 1,
        ;
        out.push((sum / (k as u64)) as u8);
        i = i + 1;
    }
    out
}

/// The separable box blur of radius `radius` (a `2 * radius + 1` square
/// window), each pass keeping the truncated mean.
pub fn box_blur(input: &[u8], width: usize, height: usize, radius: usize) -> (r: Vec<u8>)
    requires
        width * height <= input@.len(),
        radius <= MAX_RADIUS,
    ensures
        r@ == box_blurred(input@, width as int, height as int, radius as int),
{
    let temp = mean_pass(input, width, height, radius, false);
    assert(temp@ =~= row_blur(input@, width as int, height as int, radius as int));
    let out = mean_pass(&temp, width, height, radius, true);
    assert(out@ =~= box_blurred(input@, width as int, height as int, radius as int));
    out
}

/// The sum of the `2 * radius + 1` square window centred on `(x, y)`, rows and
/// columns clamped to the image.
pub fn window_sum(input: &[u8], width: usize, height: usize, x: usize, y: usize, radius: usize) -> (r: u64)
    requires
        width * height <= input@.len(),
        x < width,
        y < height,
        radius <= MAX_RADIUS,
    ensures
        r as int == square_sum(input@, width as int, height as int, x as int, y as int, radius as int, 2 * radius + 1),
{
    let (w, h) = (width, height);
    let len = input.len();
    let k = 2 * radius + 1;
    let mut total: u64 = 0;
    let mut a: usize = 0;
    while a < k
        invariant
            w * h <= input@.len(),
            len == input@.len(),
            x < w,
            y < h,
            k == 2 * radius + 1,
            radius <= MAX_RADIUS,
            0 <= a <= k,
            total <= 255 * k * a,
            total as int == square_sum(input@, w as int, h as int, x as int, y as int, radius as int, a as int),
        decreases k - a,
    {
        let ny = window_index(y, a, radius, h);
        let mut row: u64 = 0;
        let mut b: usize = 0;
        while b < k
            invariant
                w * h <= input@.len(),
                len == input@.len(),
                x < w,
                ny < h,
                k == 2 * radius + 1,
                radius <= MAX_RADIUS,
                0 <= b <= k,
                row <= 255 * b,
                row as int == row_sum(input@, w as int, ny as int, x as int, radius as int, b as int),
            decreases k - b,
        {
            let nx = window_index(x, b, radius, w);
            assert(ny * w + nx < w * h) by (nonlinear_arith)
                requires
                    ny < h,
                    nx < w,
            ;
            row = row + input[ny * w + nx] as u64;
            b = b + 1;
        }
        assert(255 * k * a + 255 * k == 255 * k * (a + 1)) by (nonlinear_arith);
        assert(255 * k * (a + 1) <= 255 * 131071 * 131071) by (nonlinear_arith)
            requires
                a < k,
                k <= 131071,
        ;
        total = total + row;
        a = a + 1;
    }
    total
}

} // verus!
