//! Box blur of an RGBA image, with edge pixels repeated past the border.
use vstd::prelude::*;
use vstd::arithmetic::div_mod::lemma_fundamental_div_mod_converse;

verus! {

/// `v` moved into `[0, n - 1]`.
pub open spec fn clamp_to(v: int, n: int) -> int {
    if v < 0 {
        0
    } else if v > n - 1 {
        n - 1
    } else {
        v
    }
}

/// Channel `c` of the pixel at `(x, y)`, the coordinates clamped into the image.
pub open spec fn sample(pixels: Seq<u8>, width: int, height: int, x: int, y: int, c: int) -> int {
    pixels[(clamp_to(y, height) * width + clamp_to(x, width)) * 4 + c] as int
}

/// Sum of channel `c` over the columns `x + lo .. x + hi` of row `y`.
pub open spec fn row_sum(pixels: Seq<u8>, width: int, height: int, x: int, y: int, c: int, lo: int, hi: int) -> int
    decreases hi - lo,
{
    if hi <= lo {
        0
    } else {
        row_sum(pixels, width, height, x, y, c, lo, hi - 1) + sample(pixels, width, height, x + hi - 1, y, c)
    }
}

/// Sum of channel `c` over the square of radius `r` around `(x, y)`, rows
/// `y + lo .. y + hi`.
pub open spec fn window_sum(
    pixels: Seq<u8>,
    width: int,
    height: int,
    x: int,
    y: int,
    c: int,
    r: int,
    lo: int,
    hi: int,
) -> int
    decreases hi - lo,
{
    if hi <= lo {
        0
    } else {
        window_sum(pixels, width, height, x, y, c, r, lo, hi - 1) + row_sum(
            pixels,
            width,
            height,
            x,
            y + hi - 1,
            c,
            -r,
            r + 1,
        )
    }
}

/// Channel `c` of pixel `(x, y)` of the blurred image: the mean over the
/// square of side `2 * r + 1`, rounded down.
pub open spec fn blurred(pixels: Seq<u8>, width: int, height: int, x: int, y: int, c: int, r: int) -> int {
    window_sum(pixels, width, height, x, y, c, r, -r, r + 1) / ((2 * r + 1) * (2 * r + 1))
}

/// Byte `i` of the blurred image, read as channel `i % 4` of pixel `i / 4`
/// in row-major order.
pub open spec fn blurred_byte(pixels: Seq<u8>, width: int, height: int, r: int, i: int) -> int {
    blurred(pixels, width, height, (i / 4) % width, (i / 4) / width, i % 4, r)
}

proof fn lemma_index_in_image(width: int, height: int, x: int, y: int, c: int)
    requires
        0 <= x < width,
        0 <= y < height,
        0 <= c < 4,
    ensures
        0 <= y * width <= y * width + x < width * height,
        0 <= (y * width + x) * 4 + c < width * height * 4,
{
    assert(0 <= y * width) by (nonlinear_arith)
        requires
            0 <= y,
            0 <= width,
    ;
    assert(y * width + x < width * height) by (nonlinear_arith)
        requires
            0 <= x < width,
            0 <= y < height,
    ;
}

proof fn lemma_row_sum_bound(pixels: Seq<u8>, width: int, height: int, x: int, y: int, c: int, lo: int, hi: int)
    requires
        lo <= hi,
    ensures
        0 <= row_sum(pixels, width, height, x, y, c, lo, hi) <= 255 * (hi - lo),
    decreases hi - lo,
{
    if lo < hi {
        lemma_row_sum_bound(pixels, width, height, x, y, c, lo, hi - 1);
    }
}

/// One channel of one output pixel.
fn blur_channel(pixels: &[u8], width: usize, height: usize, x: usize, y: usize, c: usize, radius: u32) -> (r: u32)
    requires
        0 < width <= i32::MAX,
        0 < height <= i32::MAX,
        x < width,
        y < height,
        c < 4,
        radius < 2048,
        width * height * 4 <= pixels@.len(),
    ensures
        r == window_sum(pixels@, width as int, height as int, x as int, y as int, c as int, radius as int, -radius, radius + 1),
        r <= 255 * (2 * radius + 1) * (2 * radius + 1),
{
    let len: usize = pixels.len();
    let r: i64 = radius as i64;
    let mut sum: u32 = 0;
    let mut ky: i64 = -r;
    while ky <= r
        invariant
            0 < width <= i32::MAX,
            0 < height <= i32::MAX,
            x < width,
            y < height,
            c < 4,
            r == radius,
            radius < 2048,
            width * height * 4 <= pixels@.len(),
            len == pixels@.len(),
            -r <= ky <= r + 1,
            sum == window_sum(pixels@, width as int, height as int, x as int, y as int, c as int, r as int, -r as int, ky as int),
            sum <= 255 * (2 * r + 1) * (ky + r),
        decreases r + 1 - ky,
    {
        let mut kx: i64 = -r;
        let ghost before = sum;
        while kx <= r
            invariant
                0 < width <= i32::MAX,
                0 < height <= i32::MAX,
                x < width,
                y < height,
                c < 4,
                r == radius,
                radius < 2048,
                width * height * 4 <= pixels@.len(),
                len == pixels@.len(),
                -r <= ky <= r,
                -r <= kx <= r + 1,
                before == window_sum(pixels@, width as int, height as int, x as int, y as int, c as int, r as int, -r as int, ky as int),
                before <= 255 * (2 * r + 1) * (ky + r),
                sum == before + row_sum(pixels@, width as int, height as int, x as int, y + ky, c as int, -r as int, kx as int),
                sum <= before + 255 * (kx + r),
            decreases r + 1 - kx,
        {
            let sx0: i64 = x as i64 + kx;
            let sy0: i64 = y as i64 + ky;
            let sx: i64 = if sx0 < 0 { 0 } else if sx0 > width as i64 - 1 { width as i64 - 1 } else { sx0 };
            let sy: i64 = if sy0 < 0 { 0 } else if sy0 > height as i64 - 1 { height as i64 - 1 } else { sy0 };
            proof {
                lemma_index_in_image(width as int, height as int, sx as int, sy as int, c as int);
                assert(255 * (2 * r + 1) * (ky + r) + 255 * (2 * r + 1) <= 255 * 4097 * 4097) by (nonlinear_arith)
                    requires
                        0 <= r < 2048,
                        -r <= ky <= r,
                ;
            }
            let idx: usize = (sy as usize * width + sx as usize) * 4 + c;
            sum = sum + pixels[idx] as u32;
            kx = kx + 1;
        }
        proof {
            assert(255 * (2 * r + 1) * (ky + r) + 255 * (2 * r + 1) == 255 * (2 * r + 1) * (ky + 1 + r)) by (nonlinear_arith);
        }
        ky = ky + 1;
    }
    sum
}

/// Box blur of the `width` by `height` RGBA image at the front of `pixels`:
/// each byte becomes the mean of its channel over the square of side
/// `2 * radius + 1` around its pixel, rows and columns past the border
/// repeating the edge. Bytes past the image come out zero.
pub fn box_blur(pixels: &[u8], width: u32, height: u32, radius: u32) -> (result: Vec<u8>)
    requires
        width <= i32::MAX,
        height <= i32::MAX,
        radius < 2048,
        width * height * 4 <= pixels@.len(),
    ensures
        result@.len() == pixels@.len(),
        forall|i: int|
            0 <= i < width * height * 4 ==> #[trigger] result@[i] == blurred_byte(
                pixels@,
                width as int,
                height as int,
                radius as int,
                i,
            ),
        forall|i: int| width * height * 4 <= i < pixels@.len() ==> #[trigger] result@[i] == 0,
{
    let w: usize = width as usize;
    let h: usize = height as usize;
    let side: u32 = radius * 2 + 1;
    proof {
        assert(0 < side * side <= 4095 * 4095) by (nonlinear_arith)
            requires
                0 < side <= 4095,
        ;
    }
    let area: u32 = side * side;
    let mut result: Vec<u8> = vec![0u8; pixels.len()];
    if w == 0 || h == 0 {
        proof {
            assert(width * height == 0) by (nonlinear_arith)
                requires
                    width == 0 || height == 0,
            ;
        }
        return result;
    }
    let len: usize = pixels.len();
    let ghost total = w * h * 4;
    let mut y: usize = 0;
    while y < h
        invariant
            0 < w <= i32::MAX,
            0 < h <= i32::MAX,
            w == width,
            h == height,
            radius < 2048,
            area == (2 * radius + 1) * (2 * radius + 1),
            area > 0,
            total == w * h * 4,
            total <= pixels@.len(),
            len == pixels@.len(),
            y <= h,
            result@.len() == pixels@.len(),
            forall|i: int| 0 <= i < y * w * 4 ==> #[trigger] result@[i] == blurred_byte(
                pixels@,
                w as int,
                h as int,
                radius as int,
                i,
            ),
            forall|i: int| y * w * 4 <= i < pixels@.len() ==> #[trigger] result@[i] == 0,
        decreases h - y,
    {
        let mut x: usize = 0;
        while x < w
            invariant
                0 < w <= i32::MAX,
                0 < h <= i32::MAX,
                w == width,
                h == height,
                radius < 2048,
                area == (2 * radius + 1) * (2 * radius + 1),
            area > 0,
                total == w * h * 4,
                total <= pixels@.len(),
            len == pixels@.len(),
                y < h,
                x <= w,
                result@.len() == pixels@.len(),
                forall|i: int| 0 <= i < (y * w + x) * 4 ==> #[trigger] result@[i] == blurred_byte(
                    pixels@,
                    w as int,
                    h as int,
                    radius as int,
                    i,
                ),
                forall|i: int| (y * w + x) * 4 <= i < pixels@.len() ==> #[trigger] result@[i] == 0,
            decreases w - x,
        {
            proof {
                lemma_index_in_image(w as int, h as int, x as int, y as int, 3);
            }
            let base: usize = (y * w + x) * 4;
            let mut c: usize = 0;
            while c < 4
                invariant
                    0 < w <= i32::MAX,
                    0 < h <= i32::MAX,
                    w == width,
                    h == height,
                    radius < 2048,
                    area == (2 * radius + 1) * (2 * radius + 1),
            area > 0,
                    total == w * h * 4,
                    total <= pixels@.len(),
            len == pixels@.len(),
                    y < h,
                    x < w,
                    c <= 4,
                    base == (y * w + x) * 4,
                    base + 4 <= total,
                    result@.len() == pixels@.len(),
                    forall|i: int| 0 <= i < base + c ==> #[trigger] result@[i] == blurred_byte(
                        pixels@,
                        w as int,
                        h as int,
                        radius as int,
                        i,
                    ),
                    forall|i: int| base + c <= i < pixels@.len() ==> #[trigger] result@[i] == 0,
                decreases 4 - c,
            {
                let sum = blur_channel(pixels, w, h, x, y, c, radius);
                proof {
                    let rr = 2 * radius + 1;
                    assert(sum / area <= 255) by (nonlinear_arith)
                        requires
                            sum <= 255 * rr * rr,
                            area == rr * rr,
                            rr > 0,
                    ;
                    let i = base + c;
                    lemma_fundamental_div_mod_converse(i, 4, (y * w + x) as int, c as int);
                    lemma_fundamental_div_mod_converse((y * w + x) as int, w as int, y as int, x as int);
                }
                result.set(base + c, (sum / area) as u8);
                c = c + 1;
            }
            x = x + 1;
        }
        proof {
            assert(y * w + w == (y + 1) * w) by (nonlinear_arith);
        }
        y = y + 1;
    }
    result
}

} // verus!
