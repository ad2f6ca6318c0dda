use vstd::prelude::*;

verus! {

/// `p` clamped into `0..n`.
pub open spec fn clamp_index(p: int, n: int) -> int {
    if p < 0 {
        0
    } else if p > n - 1 {
        n - 1
    } else {
        p
    }
}

/// The larger of two values when `take_max`, else the smaller.
pub open spec fn extreme(a: u8, b: u8, take_max: bool) -> u8 {
    if take_max {
        if b > a { b } else { a }
    } else {
        if b < a { b } else { a }
    }
}

/// The value a window starts from: 0 for a maximum, 255 for a minimum.
pub open spec fn window_start(take_max: bool) -> u8 {
    if take_max { 0 } else { 255 }
}

/// The extreme of the first `n` samples of the horizontal window of pixel
/// `(x, y)`, columns `x - half .. x - half + n` clamped to the row.
pub open spec fn row_window(img: Seq<u8>, w: int, y: int, x: int, half: int, n: int, take_max: bool) -> u8
    decreases n,
{
    if n <= 0 {
        window_start(take_max)
    } else {
        extreme(row_window(img, w, y, x, half, n - 1, take_max), img[y * w + clamp_index(x + n - 1 - half, w)], take_max)
    }
}

/// The extreme of the first `n` samples of the vertical window of pixel `(x, y)`.
pub open spec fn column_window(img: Seq<u8>, w: int, h: int, x: int, y: int, half: int, n: int, take_max: bool) -> u8
    decreases n,
{
    if n <= 0 {
        window_start(take_max)
    } else {
        extreme(
            column_window(img, w, h, x, y, half, n - 1, take_max),
            img[clamp_index(y + n - 1 - half, h) * w + x],
            take_max,
        )
    }
}

/// The horizontal pass of a square `k` by `k` window filter.
pub open spec fn row_pass(img: Seq<u8>, w: int, h: int, k: int, take_max: bool) -> Seq<u8> {
    Seq::new((w * h) as nat, |i: int| row_window(img, w, i / w, i % w, k / 2, k, take_max))
}

/// A square `k` by `k` window filter (maximum or minimum), applied as two
/// one-dimensional passes with the window clamped at the image edges.
pub open spec fn window_filter(img: Seq<u8>, w: int, h: int, k: int, take_max: bool) -> Seq<u8> {
    let t = row_pass(img, w, h, k, take_max);
    Seq::new((w * h) as nat, |i: int| column_window(t, w, h, i % w, i / w, k / 2, k, take_max))
}

/// What `morphological_close` returns after `n` rounds.
pub open spec fn closed(img: Seq<u8>, w: int, h: int, k: int, n: nat) -> Seq<u8>
    decreases n,
{
    if n == 0 {
        img
    } else {
        window_filter(window_filter(closed(img, w, h, k, (n - 1) as nat), w, h, k, true), w, h, k, false)
    }
}

/// Where sample `k` of a window of half-width `half` centred on `p` lands on an
/// axis of `n` pixels.
pub(crate) fn window_index(p: usize, k: usize, half: usize, n: usize) -> (r: usize)
    requires
        p < n,
    ensures
        r as int == clamp_index(p + k - half, n as int),
        r < n,
{
    if k < half {
        if p >= half - k {
            p - (half - k)
        } else {
            0
        }
    } else {
        let d = k - half;
        if d < n - p {
            p + d
        } else {
            n - 1
        }
    }
}

fn one_pass(img: &[u8], w: usize, h: usize, k: usize, take_max: bool, vertical: bool) -> (r: Vec<u8>)
    requires
        w * h <= img@.len(),
    ensures
        r@.len() == w * h,
        forall|i: int|
            0 <= i < w * h ==> r@[i] == (if vertical {
                column_window(img@, w as int, h as int, i % (w as int), i / (w as int), (k / 2) as int, k as int, take_max)
            } else {
                row_window(img@, w as int, i / (w as int), i % (w as int), (k / 2) as int, k as int, take_max)
            }),
{
    let len = img.len();
    let n = w * h;
    let half = k / 2;
    let mut out: Vec<u8> = Vec::new();
    let mut i: usize = 0;
    while i < n
        invariant
            n == w * h,
            n <= img@.len(),
            len == img@.len(),
            half == k / 2,
            0 <= i <= n,
            out@.len() == i,
            forall|j: int|
                0 <= j < i ==> out@[j] == (if vertical {
                    column_window(img@, w as int, h as int, j % (w as int), j / (w as int), half as int, k as int, take_max)
                } else {
                    row_window(img@, w as int, j / (w as int), j % (w as int), half as int, k as int, take_max)
                }),
        decreases n - i,
    {
        let x = i % w;
        let y = i / w;
        assert(y < h) by (nonlinear_arith)
            requires
                i < w * h,
                y == i / w,
                w >= 1,
        ;
        let mut acc: u8 = if take_max { 0 } else { 255 };
        let mut s: usize = 0;
        while s < k
            invariant
                n == w * h,
                n <= img@.len(),
                x < w,
                y < h,
                0 <= s <= k,
                acc == (if vertical {
                    column_window(img@, w as int, h as int, x as int, y as int, half as int, s as int, take_max)
                } else {
                    row_window(img@, w as int, y as int, x as int, half as int, s as int, take_max)
                }),
            decreases k - s,
        {
            let idx = if vertical {
                let ny = window_index(y, s, half, h);
                assert(ny * w + x < w * h) by (nonlinear_arith)
                    requires
                        ny < h,
                        x < w,
                ;
                ny * w + x
            } else {
                let nx = window_index(x, s, half, w);
                assert(y * w + nx < w * h) by (nonlinear_arith)
                    requires
                        y < h,
                        nx < w,
                ;
                y * w + nx
            };
            let val = img[idx];
            if take_max {
                if val > acc {
                    acc = val;
                }
            } else {
                if val < acc {
                    acc = val;
                }
            }
            s = s + 1;
        }
        out.push(acc);
        i = i + 1;
    }
    out
}

fn window_filter_of(input: &[u8], w: usize, h: usize, k: usize, take_max: bool) -> (r: Vec<u8>)
    requires
        w * h <= input@.len(),
    ensures
        r@ == window_filter(input@, w as int, h as int, k as int, take_max),
{
    let temp = one_pass(input, w, h, k, take_max, false);
    assert(temp@ =~= row_pass(input@, w as int, h as int, k as int, take_max));
    let out = one_pass(&temp, w, h, k, take_max, true);
    assert(out@ =~= window_filter(input@, w as int, h as int, k as int, take_max));
    out
}

/// Erosion: each pixel becomes the minimum of the `kernel_size` by
/// `kernel_size` window around it, the window clamped at the image edges.
pub fn erode(input: &[u8], width: usize, height: usize, kernel_size: usize) -> (r: Vec<u8>)
    requires
        width * height <= input@.len(),
    ensures
        r@ == window_filter(input@, width as int, height as int, kernel_size as int, false),
{
    window_filter_of(input, width, height, kernel_size, false)
}

/// Dilation: each pixel becomes the maximum of the `kernel_size` by
/// `kernel_size` window around it, the window clamped at the image edges.
pub fn dilate(input: &[u8], width: usize, height: usize, kernel_size: usize) -> (r: Vec<u8>)
    requires
        width * height <= input@.len(),
    ensures
        r@ == window_filter(input@, width as int, height as int, kernel_size as int, true),
{
    window_filter_of(input, width, height, kernel_size, true)
}

/// Morphological closing, `iterations` times over: dilate, then erode.
/// Closes small gaps in binary edges.
pub fn morphological_close(input: &[u8], width: usize, height: usize, kernel_size: usize, iterations: usize) -> (r: Vec<u8>)
    requires
        width * height <= input@.len(),
    ensures
        r@ == closed(input@, width as int, height as int, kernel_size as int, iterations as nat),
{
    let mut current: Vec<u8> = vstd::slice::slice_to_vec(input);
    let mut i: usize = 0;
    while i < iterations
        invariant
            0 <= i <= iterations,
            current@ == closed(input@, width as int, height as int, kernel_size as int, i as nat),
            width * height <= current@.len(),
        decreases iterations - i,
    {
        let d = dilate(&current, width, height, kernel_size);
        current = erode(&d, width, height, kernel_size);
        i = i + 1;
    }
    current
}

} // verus!
