use vstd::prelude::*;
use crate::image::RgbImage;

verus! {

/// Horizontal Sobel weight at column offset `dx` and row offset `dy` of the
/// 3x3 window: `[[-1, 0, 1], [-2, 0, 2], [-1, 0, 1]]` indexed `[dx][dy]`.
pub open spec fn kernel_x(dx: int, dy: int) -> int {
    (dy - 1) * (if dx == 1 { 2int } else { 1int })
}

/// Vertical Sobel weight: `[[1, 2, 1], [0, 0, 0], [-1, -2, -1]]` indexed `[dx][dy]`.
pub open spec fn kernel_y(dx: int, dy: int) -> int {
    (1 - dx) * (if dy == 1 { 2int } else { 1int })
}

/// Channel value under tap `i` (`dx = i / 3`, `dy = i % 3`) of the window
/// centred on `(col, row)`.
pub open spec fn tap(img: RgbImage, col: int, row: int, i: int) -> int {
    img.channel_at(col + i / 3 - 1, row + i % 3 - 1)
}

/// Sum of the first `n` taps weighted by the horizontal kernel.
pub open spec fn partial_gx(img: RgbImage, col: int, row: int, n: nat) -> int
    decreases n,
{
    if n == 0 {
        0
    } else {
        partial_gx(img, col, row, (n - 1) as nat) + tap(img, col, row, n - 1) * kernel_x(
            (n - 1) / 3,
            (n - 1) % 3,
        )
    }
}

/// Sum of the first `n` taps weighted by the vertical kernel.
pub open spec fn partial_gy(img: RgbImage, col: int, row: int, n: nat) -> int
    decreases n,
{
    if n == 0 {
        0
    } else {
        partial_gy(img, col, row, (n - 1) as nat) + tap(img, col, row, n - 1) * kernel_y(
            (n - 1) / 3,
            (n - 1) % 3,
        )
    }
}

pub open spec fn gradient_x(img: RgbImage, col: int, row: int) -> int {
    partial_gx(img, col, row, 9)
}

pub open spec fn gradient_y(img: RgbImage, col: int, row: int) -> int {
    partial_gy(img, col, row, 9)
}

/// `k` is `sqrt(n)` rounded to the nearest integer. No integer `n` has a root
/// ending in exactly one half, so this picks a single `k`.
pub open spec fn is_rounded_root(k: int, n: int) -> bool {
    0 <= k && n <= k * k + k && (k == 0 || k * k - k < n)
}

/// The least `j >= k` with `n <= j * j + j`, or 255 if that is smaller.
pub open spec fn root_search(k: int, n: int) -> int
    decreases 255 - k,
{
    if k >= 255 || n <= k * k + k {
        k
    } else {
        root_search(k + 1, n)
    }
}

/// `round(sqrt(n))` clamped to 255.
pub open spec fn capped_root(n: int) -> int {
    root_search(0, n)
}

/// The edge magnitude at interior pixel `(col, row)`.
pub open spec fn sobel_value(img: RgbImage, col: int, row: int) -> int {
    let gx = gradient_x(img, col, row);
    let gy = gradient_y(img, col, row);
    capped_root(gx * gx + gy * gy)
}

/// Whether `(col, row)` has a full 3x3 neighbourhood in a `width` x `height` image.
pub open spec fn is_interior(width: int, height: int, col: int, row: int) -> bool {
    1 <= col <= width - 2 && 1 <= row <= height - 2
}

proof fn lemma_root_search(k: int, n: int)
    requires
        0 <= k <= 255,
        n >= 0,
        k == 0 || (k - 1) * (k - 1) + (k - 1) < n,
    ensures
        k <= root_search(k, n) <= 255,
        n <= 65280 ==> is_rounded_root(root_search(k, n), n),
        n > 65280 ==> root_search(k, n) == 255,
    decreases 255 - k,
{
    if k >= 255 || n <= k * k + k {
        assert((k - 1) * (k - 1) + (k - 1) == k * k - k) by (nonlinear_arith);
        if k < 255 {
            assert(k * k + k <= 64770) by (nonlinear_arith)
                requires 0 <= k <= 254;
        }
    } else {
        lemma_root_search(k + 1, n);
    }
}

/// The capped root is the rounded square root while that stays within 255,
/// and 255 beyond; it never leaves `[0, 255]`.
pub proof fn lemma_capped_root(n: int)
    requires
        n >= 0,
    ensures
        0 <= capped_root(n) <= 255,
        n <= 65280 ==> is_rounded_root(capped_root(n), n),
        n > 65280 ==> capped_root(n) == 255,
{
    lemma_root_search(0, n);
}

/// Horizontal weight at `[dx][dy]`.
pub fn weight_x(dx: usize, dy: usize) -> (r: i32)
    requires
        dx < 3,
        dy < 3,
    ensures
        r == kernel_x(dx as int, dy as int),
{
    let scale: i32 = if dx == 1 { 2 } else { 1 };
    (dy as i32 - 1) * scale
}

/// Vertical weight at `[dx][dy]`.
pub fn weight_y(dx: usize, dy: usize) -> (r: i32)
    requires
        dx < 3,
        dy < 3,
    ensures
        r == kernel_y(dx as int, dy as int),
{
    let scale: i32 = if dy == 1 { 2 } else { 1 };
    (1 - dx as i32) * scale
}

/// `round(sqrt(gx * gx + gy * gy))`, clamped to 255.
pub fn magnitude(gx: i32, gy: i32) -> (r: u8)
    requires
        -4590 <= gx <= 4590,
        -4590 <= gy <= 4590,
    ensures
        r as int == capped_root(gx * gx + gy * gy),
{
    assert(gx * gx <= 4590 * 4590 && gy * gy <= 4590 * 4590 && gx * gx >= 0 && gy * gy >= 0)
        by (nonlinear_arith)
        requires -4590 <= gx <= 4590, -4590 <= gy <= 4590;
    let n: u64 = (gx * gx + gy * gy) as u64;
    let mut k: u64 = 0;
    while k < 255 && k * k + k < n
        invariant
            k <= 255,
            k * k + k <= 65280,
            n == gx * gx + gy * gy,
            root_search(k as int, n as int) == capped_root(n as int),
        decreases 255 - k,
    {
        assert((k + 1) * (k + 1) + (k + 1) <= 65280) by (nonlinear_arith)
            requires k < 255;
        k = k + 1;
    }
    proof {
        lemma_capped_root(n as int);
    }
    k as u8
}

proof fn lemma_partial_bounds(img: RgbImage, col: int, row: int, n: nat)
    requires
        img.wf(),
        n <= 9,
        is_interior(img.width as int, img.height as int, col, row),
    ensures
        -510 * n <= partial_gx(img, col, row, n) <= 510 * n,
        -510 * n <= partial_gy(img, col, row, n) <= 510 * n,
    decreases n,
{
    if n > 0 {
        lemma_partial_bounds(img, col, row, (n - 1) as nat);
        let i = n - 1;
        let c = col + i / 3 - 1;
        let r = row + i % 3 - 1;
        crate::image::lemma_index_in_bounds(img.width as int, img.height as int, c, r);
        let t = tap(img, col, row, i);
        assert(0 <= t <= 255);
        let wx = kernel_x(i / 3, i % 3);
        let wy = kernel_y(i / 3, i % 3);
        assert(-2 <= wx <= 2 && -2 <= wy <= 2);
        assert(-510 <= t * wx <= 510 && -510 <= t * wy <= 510) by (nonlinear_arith)
            requires 0 <= t <= 255, -2 <= wx <= 2, -2 <= wy <= 2;
    }
}

/// The Sobel edge magnitude at interior pixel `(col, row)`, read from the
/// first channel of each pixel of its 3x3 neighbourhood.
pub fn sobel_at(img: &RgbImage, col: u32, row: u32) -> (r: u8)
    requires
        img.wf(),
        is_interior(img.width as int, img.height as int, col as int, row as int),
    ensures
        r as int == sobel_value(*img, col as int, row as int),
{
    let mut gx: i32 = 0;
    let mut gy: i32 = 0;
    let mut i: usize = 0;
    while i < 9
        invariant
            img.wf(),
            is_interior(img.width as int, img.height as int, col as int, row as int),
            i <= 9,
            gx == partial_gx(*img, col as int, row as int, i as nat),
            gy == partial_gy(*img, col as int, row as int, i as nat),
        decreases 9 - i,
    {
        let dx: usize = i / 3;
        let dy: usize = i % 3;
        proof {
            lemma_partial_bounds(*img, col as int, row as int, (i + 1) as nat);
        }
        let v: i32 = img.channel(col + dx as u32 - 1, row + dy as u32 - 1) as i32;
        let wx: i32 = weight_x(dx, dy);
        let wy: i32 = weight_y(dx, dy);
        assert(-510 <= v * wx <= 510 && -510 <= v * wy <= 510) by (nonlinear_arith)
            requires 0 <= v <= 255, -2 <= wx <= 2, -2 <= wy <= 2;
        gx = gx + v * wx;
        gy = gy + v * wy;
        i = i + 1;
    }
    proof {
        lemma_partial_bounds(*img, col as int, row as int, 9);
    }
    magnitude(gx, gy)
}

} // verus!
