//! 3x3 convolutions over planar images with integer weights.
//!
//! A filter writes only interior pixels (those with a full 3x3 neighbourhood);
//! border pixels become 0. The weighted sum is divided by the sum of the weights
//! (or by 1 when the weights sum to 0), limited to `0..=255` and truncated, as a
//! floating-point evaluation of the same integer weights would give: with the
//! small weights used here every such evaluation is exact.
use crate::image::{photon_of, planar_of, PlanarImage, PlanarView};
use crate::pipeline::Pipeline;
use crate::ops::{clamp_u8, lemma_ops_keep_alpha_and_shape, ops_image, PixelOp};
use crate::pipeline::swap_image;
use vstd::arithmetic::div_mod::{lemma_fundamental_div_mod, lemma_fundamental_div_mod_converse};
use vstd::arithmetic::mul::{
    lemma_mul_inequality, lemma_mul_is_associative, lemma_mul_is_distributive_add,
};
use vstd::prelude::*;

verus! {

broadcast use crate::image::lemma_planar_view_fields;

/// The largest weight magnitude of a direct 3x3 kernel: with it every sum of a
/// filter stays below 2^24, where floating-point evaluation is exact.
pub open spec fn max_weight() -> int {
    7225
}

/// The largest weight magnitude of one pass of a separable kernel: the row sums
/// and their weighted sums stay below 2^24, and the outer kernel of two such
/// passes stays within `max_weight()`.
pub open spec fn max_tap() -> int {
    85
}

/// The nine weights of a 3x3 kernel, row by row.
pub open spec fn kernel_of(k: [i32; 9]) -> Seq<int> {
    Seq::new(9, |j: int| k@[j] as int)
}

/// The three weights of one pass of a separable kernel.
pub open spec fn taps_of(k: [i32; 3]) -> Seq<int> {
    Seq::new(3, |j: int| k@[j] as int)
}

/// Every weight lies within `-max_weight()..=max_weight()`.
pub open spec fn weights_bounded(k: Seq<int>) -> bool {
    forall|j: int| 0 <= j < k.len() ==> -max_weight() <= #[trigger] k[j] <= max_weight()
}

/// Every weight lies within `-max_tap()..=max_tap()`.
pub open spec fn taps_bounded(k: Seq<int>) -> bool {
    forall|j: int| 0 <= j < k.len() ==> -max_tap() <= #[trigger] k[j] <= max_tap()
}

pub open spec fn kernel_sum(k: Seq<int>) -> int {
    k[0] + k[1] + k[2] + k[3] + k[4] + k[5] + k[6] + k[7] + k[8]
}

pub open spec fn taps_sum(k: Seq<int>) -> int {
    k[0] + k[1] + k[2]
}

/// The divisor of a filter whose weights sum to `sum`.
pub open spec fn divisor(sum: int) -> int {
    if sum == 0 {
        1
    } else {
        sum
    }
}

/// The 3x3 kernel `v[row] * h[col]` that a vertical pass `v` after a horizontal
/// pass `h` amounts to.
pub open spec fn outer(v: Seq<int>, h: Seq<int>) -> Seq<int> {
    seq![
        v[0] * h[0], v[0] * h[1], v[0] * h[2],
        v[1] * h[0], v[1] * h[1], v[1] * h[2],
        v[2] * h[0], v[2] * h[1], v[2] * h[2],
    ]
}

/// The weighted sum of the 3x3 neighbourhood of pixel `i` in a plane with rows
/// of `w` pixels.
pub open spec fn weighted_sum(s: Seq<u8>, w: int, i: int, k: Seq<int>) -> int {
    k[0] * s[i - w - 1] + k[1] * s[i - w] + k[2] * s[i - w + 1] + k[3] * s[i - 1] + k[4] * s[i]
        + k[5] * s[i + 1] + k[6] * s[i + w - 1] + k[7] * s[i + w] + k[8] * s[i + w + 1]
}

/// The weighted sum of pixel `i` and its left and right neighbours.
pub open spec fn row_sum(s: Seq<u8>, i: int, h: Seq<int>) -> int {
    h[0] * s[i - 1] + h[1] * s[i] + h[2] * s[i + 1]
}

/// `v / d` limited to `0..=255` and truncated toward zero.
pub open spec fn quantize(v: int, d: int) -> u8 {
    if d > 0 {
        if v <= 0 {
            0
        } else {
            clamp_u8(v / d)
        }
    } else {
        if v >= 0 {
            0
        } else {
            clamp_u8((-v) / (-d))
        }
    }
}

/// Pixel `i` of a `w` x `h` image has a full 3x3 neighbourhood.
pub open spec fn is_interior(i: int, w: int, h: int) -> bool {
    &&& w >= 3
    &&& h >= 3
    &&& 0 <= i
    &&& 1 <= i / w <= h - 2
    &&& 1 <= i % w <= w - 2
}

/// Pixel `i` lies in the first `h - 1` rows and the first `w - 1` columns.
pub open spec fn in_restore_region(i: int, w: int, h: int) -> bool {
    &&& w >= 2
    &&& h >= 2
    &&& 0 <= i
    &&& i / w < h - 1
    &&& i % w < w - 1
}

/// Plane `d` with its interior pixels replaced by the filtered pixels of `s`.
pub open spec fn convolve_onto(s: Seq<u8>, d: Seq<u8>, w: int, h: int, k: Seq<int>) -> Seq<u8> {
    Seq::new(
        d.len(),
        |i: int|
            if is_interior(i, w, h) {
                quantize(weighted_sum(s, w, i, k), divisor(kernel_sum(k)))
            } else {
                d[i]
            },
    )
}

/// One plane after a direct 3x3 filter.
pub open spec fn convolve_channel(s: Seq<u8>, w: int, h: int, k: Seq<int>) -> Seq<u8> {
    Seq::new(
        s.len(),
        |i: int|
            if is_interior(i, w, h) {
                quantize(weighted_sum(s, w, i, k), divisor(kernel_sum(k)))
            } else {
                0
            },
    )
}

pub open spec fn all_zero(s: Seq<u8>) -> bool {
    forall|i: int| 0 <= i < s.len() ==> s[i] == 0
}

/// When a filter has turned the whole alpha plane to 0, the source alpha comes
/// back in the first `h - 1` rows and `w - 1` columns.
pub open spec fn restore_alpha(src_a: Seq<u8>, dst_a: Seq<u8>, w: int, h: int) -> Seq<u8> {
    if all_zero(dst_a) {
        Seq::new(
            dst_a.len(),
            |i: int|
                if in_restore_region(i, w, h) {
                    src_a[i]
                } else {
                    dst_a[i]
                },
        )
    } else {
        dst_a
    }
}

/// One plane after a horizontal pass `hk` over each row followed by a vertical
/// pass `vk` over the row sums, divided by the product of the two weight sums.
pub open spec fn separable_channel(s: Seq<u8>, w: int, h: int, hk: Seq<int>, vk: Seq<int>) -> Seq<u8> {
    Seq::new(
        s.len(),
        |i: int|
            if is_interior(i, w, h) {
                quantize(
                    vk[0] * row_sum(s, i - w, hk) + vk[1] * row_sum(s, i, hk) + vk[2] * row_sum(
                        s,
                        i + w,
                        hk,
                    ),
                    divisor(taps_sum(hk) * taps_sum(vk)),
                )
            } else {
                0
            },
    )
}

/// The image after a direct 3x3 filter with weights `k`.
pub open spec fn direct_image(img: PlanarView, k: Seq<int>) -> PlanarView {
    let w = img.width as int;
    let h = img.height as int;
    PlanarView {
        r: convolve_channel(img.r, w, h, k),
        g: convolve_channel(img.g, w, h, k),
        b: convolve_channel(img.b, w, h, k),
        a: restore_alpha(img.a, convolve_channel(img.a, w, h, k), w, h),
        width: img.width,
        height: img.height,
    }
}

/// The restore region of a `w` x `h` image lies within `len` pixels.
pub open spec fn restore_fits(w: int, h: int, len: int) -> bool {
    w >= 2 && h >= 2 ==> (h - 1) * w - 1 <= len
}

/// Every pixel that a 3x3 filter reads or writes lies within `len` pixels.
pub open spec fn filter_fits(w: int, h: int, len: int) -> bool {
    &&& (w >= 3 && h >= 3 ==> w * h <= len)
    &&& restore_fits(w, h, len)
}

/// Every pixel that a 3x3 filter reads or writes lies within the planes.
pub open spec fn image_fits_filter(img: PlanarView) -> bool {
    filter_fits(img.width as int, img.height as int, img.r.len() as int)
}

/// Pixel `(y, x)` of a plane with rows of `w` pixels sits at index `y * w + x`.
proof fn lemma_position(w: int, y: int, x: int)
    requires
        w > 0,
        0 <= x < w,
        0 <= y,
    ensures
        (y * w + x) / w == y,
        (y * w + x) % w == x,
{
    lemma_fundamental_div_mod_converse(y * w + x, w, y, x);
}

/// An index is determined by its row and column.
proof fn lemma_index_from_position(i: int, w: int)
    requires
        w > 0,
        0 <= i,
    ensures
        i == (i / w) * w + i % w,
        0 <= i % w < w,
        0 <= i / w,
{
    lemma_fundamental_div_mod(i, w);
    assert(w * (i / w) == (i / w) * w) by (nonlinear_arith);
    assert(0 <= i / w) by (nonlinear_arith)
        requires
            w > 0,
            0 <= i,
    ;
}

/// The neighbourhood of an interior pixel `(y, x)` lies within the image.
proof fn lemma_neighbourhood(w: int, h: int, y: int, x: int)
    requires
        w >= 3,
        h >= 3,
        1 <= y <= h - 2,
        1 <= x <= w - 2,
    ensures
        (y - 1) * w == y * w - w,
        (y + 1) * w == y * w + w,
        (y + 1) * w + x + 1 < w * h,
        0 <= (y - 1) * w,
        (y * w + x) / w == y,
        (y * w + x) % w == x,
        is_interior(y * w + x, w, h),
{
    assert((y - 1) * w == y * w - w) by (nonlinear_arith);
    assert((y + 1) * w == y * w + w) by (nonlinear_arith);
    lemma_mul_inequality(y + 1, h - 1, w);
    assert((h - 1) * w == w * h - w) by (nonlinear_arith);
    assert(0 <= (y - 1) * w) by (nonlinear_arith)
        requires
            y >= 1,
            w >= 0,
    ;
    lemma_position(w, y, x);
}

/// A separable filter is the direct filter whose kernel is the outer product of
/// the vertical and the horizontal pass.
pub proof fn lemma_separable_matches_direct(s: Seq<u8>, w: int, h: int, hk: Seq<int>, vk: Seq<int>)
    requires
        hk.len() == 3,
        vk.len() == 3,
    ensures
        separable_channel(s, w, h, hk, vk) == convolve_channel(s, w, h, outer(vk, hk)),
{
    assert(taps_sum(hk) * taps_sum(vk) == taps_sum(vk) * taps_sum(hk)) by (nonlinear_arith);
    assert forall|i: int| 0 <= i < s.len() implies #[trigger] separable_channel(s, w, h, hk, vk)[i]
        == convolve_channel(s, w, h, outer(vk, hk))[i] by {
        lemma_separable_sum(s, w, i, hk, vk);
    }
    assert(separable_channel(s, w, h, hk, vk) =~= convolve_channel(s, w, h, outer(vk, hk)));
}

/// `k * p` for a bounded weight and a byte.
fn tap(k: i32, p: u8) -> (r: i32)
    requires
        -max_weight() <= k <= max_weight(),
    ensures
        r == k * p,
        -max_weight() * 255 <= r <= max_weight() * 255,
{
    assert(-7225 * 255 <= k * p <= 7225 * 255) by (nonlinear_arith)
        requires
            -7225 <= k <= 7225,
            0 <= p <= 255,
    ;
    k * (p as i32)
}

/// The largest sum of a 3x3 neighbourhood of bytes.
pub open spec fn max_box_sum() -> int {
    2295
}

/// `x / 9` by a fixed-point multiply: `(x * ceil(2^16 / 9)) >> 16`.
fn div9(x: u16) -> (q: u16)
    requires
        x <= max_box_sum(),
    ensures
        q == x / 9,
{
    let wide = x as u32;
    assert(((wide * 7282u32) as u32) >> 16u32 == wide / 9u32) by (bit_vector)
        requires
            wide <= 2295u32,
    ;
    ((wide * 7282) >> 16) as u16
}

/// Divides eight box-blur sums by 9 with the fixed-point multiply; the
/// multiply is exact for every sum a 3x3 neighbourhood of bytes can have.
pub fn div9_u16x8(values: [u16; 8]) -> (out: [u16; 8])
    requires
        forall|j: int| 0 <= j < 8 ==> #[trigger] values[j] <= max_box_sum(),
    ensures
        forall|j: int| 0 <= j < 8 ==> #[trigger] out[j] == values[j] / 9,
{
    let mut out = values;
    let mut j: usize = 0;
    while j < 8
        invariant
            j <= 8,
            forall|q: int| 0 <= q < 8 ==> #[trigger] values[q] <= max_box_sum(),
            forall|q: int| 0 <= q < j ==> #[trigger] out[q] == values[q] / 9,
            forall|q: int| j <= q < 8 ==> #[trigger] out[q] == values[q],
        decreases 8 - j,
    {
        out[j] = div9(values[j]);
        j = j + 1;
    }
    out
}

/// `v / d` limited to `0..=255` and truncated toward zero.
fn quantize_exec(v: i32, d: i32) -> (q: u8)
    requires
        d != 0,
    ensures
        q == quantize(v as int, d as int),
{
    if d > 0 {
        if v <= 0 {
            0
        } else {
            let q = (v as u32) / (d as u32);
            if q > 255 {
                255
            } else {
                q as u8
            }
        }
    } else {
        if v >= 0 {
            0
        } else {
            let q = ((-(v as i64)) as u64) / ((-(d as i64)) as u64);
            if q > 255 {
                255
            } else {
                q as u8
            }
        }
    }
}

/// Sets every byte of the plane to 0.
fn fill_zero(plane: &mut Vec<u8>)
    ensures
        final(plane)@.len() == old(plane)@.len(),
        all_zero(final(plane)@),
{
    let n = plane.len();
    let mut i: usize = 0;
    while i < n
        invariant
            n == plane@.len(),
            i <= n,
            forall|k: int| 0 <= k < i ==> plane@[k] == 0,
        decreases n - i,
    {
        plane.set(i, 0);
        i = i + 1;
    }
}

/// Filters the interior pixels of one plane with a direct 3x3 kernel; other
/// pixels of `dst` stay as they were.
#[verifier::loop_isolation(false)]
pub fn convolve_3x3_channel(
    src: &Vec<u8>,
    dst: &mut Vec<u8>,
    width: usize,
    height: usize,
    kernel: [i32; 9],
)
    requires
        width >= 3 && height >= 3 ==> {
            &&& width * height <= src@.len()
            &&& width * height <= old(dst)@.len()
            &&& weights_bounded(kernel_of(kernel))
        },
    ensures
        final(dst)@ == convolve_onto(
            src@,
            old(dst)@,
            width as int,
            height as int,
            kernel_of(kernel),
        ),
{
    let ghost w = width as int;
    let ghost h = height as int;
    let ghost k = kernel_of(kernel);
    let ghost s = src@;
    let ghost d0 = old(dst)@;
    let ghost expected = convolve_onto(s, d0, w, h, k);
    if width < 3 || height < 3 {
        assert(dst@ =~= expected);
        return;
    }
    assert(forall|j: int| 0 <= j < 9 ==> -7225 <= #[trigger] k[j] <= 7225);
    assert(k[0] == kernel[0] && k[1] == kernel[1] && k[2] == kernel[2]);
    assert(k[3] == kernel[3] && k[4] == kernel[4] && k[5] == kernel[5]);
    assert(k[6] == kernel[6] && k[7] == kernel[7] && k[8] == kernel[8]);
    let sum = kernel[0] + kernel[1] + kernel[2] + kernel[3] + kernel[4] + kernel[5] + kernel[6]
        + kernel[7] + kernel[8];
    let div = if sum == 0 {
        1
    } else {
        sum
    };
    assert(div == divisor(kernel_sum(k)));
    // Every index below stays under the plane's length, itself a `usize`.
    let n = src.len();
    assert(width * height <= n);
    let mut y: usize = 1;
    while y < height - 1
        invariant
            1 <= y <= height - 1,
            dst@.len() == d0.len(),
            forall|i: int|
                0 <= i < d0.len() ==> #[trigger] dst@[i] == if is_interior(i, w, h) && i / w < y {
                    expected[i]
                } else {
                    d0[i]
                },
        decreases height - y,
    {
        let mut x: usize = 1;
        while x < width - 1
            invariant
                1 <= x <= width - 1,
                dst@.len() == d0.len(),
                forall|i: int|
                    0 <= i < d0.len() ==> #[trigger] dst@[i] == if is_interior(i, w, h) && (i / w
                        < y || (i / w == y && i % w < x)) {
                        expected[i]
                    } else {
                        d0[i]
                    },
            decreases width - x,
        {
            proof {
                lemma_neighbourhood(w, h, y as int, x as int);
            }
            let top = (y - 1) * width;
            let mid = y * width;
            let bot = (y + 1) * width;
            let p = mid + x;
            let value = tap(kernel[0], src[top + x - 1]) + tap(kernel[1], src[top + x]) + tap(
                kernel[2],
                src[top + x + 1],
            ) + tap(kernel[3], src[mid + x - 1]) + tap(kernel[4], src[mid + x]) + tap(
                kernel[5],
                src[mid + x + 1],
            ) + tap(kernel[6], src[bot + x - 1]) + tap(kernel[7], src[bot + x]) + tap(
                kernel[8],
                src[bot + x + 1],
            );
            assert(value == weighted_sum(s, w, p as int, k));
            let q = quantize_exec(value, div);
            let ghost before = dst@;
            dst.set(p, q);
            assert forall|i: int| 0 <= i < d0.len() implies #[trigger] dst@[i] == if is_interior(
                i,
                w,
                h,
            ) && (i / w < y || (i / w == y && i % w < x + 1)) {
                expected[i]
            } else {
                d0[i]
            } by {
                if i != p {
                    lemma_index_from_position(i, w);
                    assert(before[i] == dst@[i]);
                    if i / w == y && i % w == x {
                        assert(i == p);
                    }
                }
            }
            x = x + 1;
        }
        y = y + 1;
    }
    assert forall|i: int| 0 <= i < d0.len() implies #[trigger] dst@[i] == expected[i] by {
        if is_interior(i, w, h) {
            assert(i / w < y);
        }
    }
    assert(dst@ =~= expected);
}


/// `k * p` for a bounded weight and a bounded row sum.
fn tap_wide(k: i32, p: i32) -> (r: i32)
    requires
        -max_tap() <= k <= max_tap(),
        -3 * 255 * max_tap() <= p <= 3 * 255 * max_tap(),
    ensures
        r == k * p,
        -5527125 <= r <= 5527125,
{
    assert(-5527125 <= k * p <= 5527125) by (nonlinear_arith)
        requires
            -85 <= k <= 85,
            -65025 <= p <= 65025,
    ;
    k * p
}

proof fn lemma_scaled_row(v: int, h0: int, h1: int, h2: int, a: int, b: int, c: int)
    ensures
        v * (h0 * a + h1 * b + h2 * c) == (v * h0) * a + (v * h1) * b + (v * h2) * c,
{
    lemma_mul_is_distributive_add(v, h0 * a + h1 * b, h2 * c);
    lemma_mul_is_distributive_add(v, h0 * a, h1 * b);
    lemma_mul_is_associative(v, h0, a);
    lemma_mul_is_associative(v, h1, b);
    lemma_mul_is_associative(v, h2, c);
}

/// A row sum with bounded weights is bounded.
proof fn lemma_row_sum_bounded(s: Seq<u8>, i: int, hk: Seq<int>)
    requires
        hk.len() == 3,
        taps_bounded(hk),
        1 <= i,
        i + 1 < s.len(),
    ensures
        -3 * 255 * max_tap() <= row_sum(s, i, hk) <= 3 * 255 * max_tap(),
{
    assert(-85 <= hk[0] <= 85 && -85 <= hk[1] <= 85 && -85 <= hk[2] <= 85);
    let a = s[i - 1];
    let b = s[i];
    let c = s[i + 1];
    assert(-85 * 255 <= hk[0] * a <= 85 * 255) by (nonlinear_arith)
        requires
            -85 <= hk[0] <= 85,
            0 <= a <= 255,
    ;
    assert(-85 * 255 <= hk[1] * b <= 85 * 255) by (nonlinear_arith)
        requires
            -85 <= hk[1] <= 85,
            0 <= b <= 255,
    ;
    assert(-85 * 255 <= hk[2] * c <= 85 * 255) by (nonlinear_arith)
        requires
            -85 <= hk[2] <= 85,
            0 <= c <= 255,
    ;
}

/// A vertical pass over horizontal row sums is the direct filter with the outer
/// kernel, pixel by pixel.
proof fn lemma_separable_sum(s: Seq<u8>, w: int, i: int, hk: Seq<int>, vk: Seq<int>)
    requires
        hk.len() == 3,
        vk.len() == 3,
    ensures
        vk[0] * row_sum(s, i - w, hk) + vk[1] * row_sum(s, i, hk) + vk[2] * row_sum(s, i + w, hk)
            == weighted_sum(s, w, i, outer(vk, hk)),
        taps_sum(vk) * taps_sum(hk) == kernel_sum(outer(vk, hk)),
{
    lemma_scaled_row(vk[0], hk[0], hk[1], hk[2], s[i - w - 1] as int, s[i - w] as int, s[i - w + 1] as int);
    lemma_scaled_row(vk[1], hk[0], hk[1], hk[2], s[i - 1] as int, s[i] as int, s[i + 1] as int);
    lemma_scaled_row(vk[2], hk[0], hk[1], hk[2], s[i + w - 1] as int, s[i + w] as int, s[i + w + 1] as int);
    assert(i - w - 1 == (i - w) - 1 && i - w + 1 == (i - w) + 1);
    assert(i + w - 1 == (i + w) - 1 && i + w + 1 == (i + w) + 1);
    lemma_scaled_row(taps_sum(vk), hk[0], hk[1], hk[2], 1, 1, 1);
    assert(taps_sum(vk) * hk[0] == vk[0] * hk[0] + vk[1] * hk[0] + vk[2] * hk[0]) by (nonlinear_arith);
    assert(taps_sum(vk) * hk[1] == vk[0] * hk[1] + vk[1] * hk[1] + vk[2] * hk[1]) by (nonlinear_arith);
    assert(taps_sum(vk) * hk[2] == vk[0] * hk[2] + vk[1] * hk[2] + vk[2] * hk[2]) by (nonlinear_arith);
    assert(taps_sum(vk) * taps_sum(hk) == taps_sum(vk) * hk[0] + taps_sum(vk) * hk[1] + taps_sum(vk) * hk[2]) by (nonlinear_arith);
}

/// Row `y` of a `w` x `h` plane lies within the first `w * h` pixels.
proof fn lemma_row_fits(w: int, h: int, y: int)
    requires
        w >= 0,
        0 <= y < h,
    ensures
        0 <= y * w,
        y * w + w <= w * h,
{
    lemma_mul_inequality(y + 1, h, w);
    assert((y + 1) * w == y * w + w) by (nonlinear_arith);
    assert(h * w == w * h) by (nonlinear_arith);
    assert(0 <= y * w) by (nonlinear_arith)
        requires
            y >= 0,
            w >= 0,
    ;
}

/// Filters the interior pixels of one plane with a horizontal pass followed by
/// a vertical pass; other pixels of `dst` stay as they were.
#[verifier::loop_isolation(false)]
fn convolve_separable_3x3_channel(
    src: &Vec<u8>,
    dst: &mut Vec<u8>,
    scratch: &mut Vec<i32>,
    width: usize,
    height: usize,
    horizontal: [i32; 3],
    vertical: [i32; 3],
)
    requires
        width >= 3 && height >= 3 ==> {
            &&& width * height <= src@.len()
            &&& width * height <= old(dst)@.len()
            &&& width * height <= old(scratch)@.len()
            &&& taps_bounded(taps_of(horizontal))
            &&& taps_bounded(taps_of(vertical))
        },
    ensures
        final(dst)@ == convolve_onto(
            src@,
            old(dst)@,
            width as int,
            height as int,
            outer(taps_of(vertical), taps_of(horizontal)),
        ),
        final(scratch)@.len() == old(scratch)@.len(),
{
    let ghost w = width as int;
    let ghost h = height as int;
    let ghost hk = taps_of(horizontal);
    let ghost vk = taps_of(vertical);
    let ghost k = outer(vk, hk);
    let ghost s = src@;
    let ghost d0 = old(dst)@;
    let ghost sl = old(scratch)@.len();
    let ghost expected = convolve_onto(s, d0, w, h, k);
    if width < 3 || height < 3 {
        assert(dst@ =~= expected);
        return;
    }
    assert(forall|j: int| 0 <= j < 3 ==> -max_tap() <= #[trigger] hk[j] <= max_tap());
    assert(forall|j: int| 0 <= j < 3 ==> -max_tap() <= #[trigger] vk[j] <= max_tap());
    assert(hk[0] == horizontal[0] && hk[1] == horizontal[1] && hk[2] == horizontal[2]);
    assert(vk[0] == vertical[0] && vk[1] == vertical[1] && vk[2] == vertical[2]);
    // Every index below stays under the plane's length, itself a `usize`.
    let n = src.len();
    assert(width * height <= n);

    // Horizontal pass: the row sum of every pixel with a left and a right neighbour.
    let mut y: usize = 0;
    while y < height
        invariant
            y <= height,
            scratch@.len() == sl,
            forall|i: int|
                0 <= i < w * h && 1 <= i % w <= w - 2 && i / w < y ==> #[trigger] scratch@[i]
                    == row_sum(s, i, hk),
        decreases height - y,
    {
        proof {
            lemma_row_fits(w, h, y as int);
        }
        let row = y * width;
        let mut x: usize = 1;
        while x < width - 1
            invariant
                1 <= x <= width - 1,
                scratch@.len() == sl,
                forall|i: int|
                    0 <= i < w * h && 1 <= i % w <= w - 2 && (i / w < y || (i / w == y && i % w < x))
                        ==> #[trigger] scratch@[i] == row_sum(s, i, hk),
            decreases width - x,
        {
            let p = row + x;
            let value = tap(horizontal[0], src[p - 1]) + tap(horizontal[1], src[p]) + tap(
                horizontal[2],
                src[p + 1],
            );
            let ghost before = scratch@;
            scratch.set(p, value);
            proof {
                lemma_position(w, y as int, x as int);
                assert forall|i: int|
                    0 <= i < w * h && 1 <= i % w <= w - 2 && (i / w < y || (i / w == y && i % w < x
                        + 1)) implies #[trigger] scratch@[i] == row_sum(s, i, hk) by {
                    if i != p {
                        lemma_index_from_position(i, w);
                        assert(before[i] == scratch@[i]);
                        if i / w == y && i % w == x {
                            assert(i == p);
                        }
                    }
                }
            }
            x = x + 1;
        }
        y = y + 1;
    }

    // Vertical pass over the row sums of the rows above and below.
    let sum_h = horizontal[0] + horizontal[1] + horizontal[2];
    let sum_v = vertical[0] + vertical[1] + vertical[2];
    assert(-765 <= sum_h <= 765 && -765 <= sum_v <= 765);
    assert(-765 * 765 <= sum_h * sum_v <= 765 * 765) by (nonlinear_arith)
        requires
            -765 <= sum_h <= 765,
            -765 <= sum_v <= 765,
    ;
    let sum = sum_v * sum_h;
    let div = if sum == 0 {
        1
    } else {
        sum
    };
    proof {
        lemma_separable_sum(s, w, 0, hk, vk);
    }
    assert(div == divisor(kernel_sum(k)));
    let mut y: usize = 1;
    while y < height - 1
        invariant
            1 <= y <= height - 1,
            dst@.len() == d0.len(),
            forall|i: int|
                0 <= i < d0.len() ==> #[trigger] dst@[i] == if is_interior(i, w, h) && i / w < y {
                    expected[i]
                } else {
                    d0[i]
                },
        decreases height - y,
    {
        let mut x: usize = 1;
        while x < width - 1
            invariant
                1 <= x <= width - 1,
                dst@.len() == d0.len(),
                forall|i: int|
                    0 <= i < d0.len() ==> #[trigger] dst@[i] == if is_interior(i, w, h) && (i / w
                        < y || (i / w == y && i % w < x)) {
                        expected[i]
                    } else {
                        d0[i]
                    },
            decreases width - x,
        {
            proof {
                lemma_neighbourhood(w, h, y as int, x as int);
                lemma_position(w, y as int - 1, x as int);
                lemma_position(w, y as int + 1, x as int);
            }
            let top = (y - 1) * width;
            let mid = y * width;
            let bot = (y + 1) * width;
            let p = mid + x;
            assert(scratch@[top + x] == row_sum(s, p - w, hk));
            assert(scratch@[mid + x] == row_sum(s, p as int, hk));
            assert(scratch@[bot + x] == row_sum(s, p + w, hk));
            proof {
                lemma_row_sum_bounded(s, p - w, hk);
                lemma_row_sum_bounded(s, p as int, hk);
                lemma_row_sum_bounded(s, p + w, hk);
            }
            let upper = tap_wide(vertical[0], scratch[top + x]);
            let centre = tap_wide(vertical[1], scratch[mid + x]);
            let lower = tap_wide(vertical[2], scratch[bot + x]);
            let value = upper + centre + lower;
            proof {
                lemma_separable_sum(s, w, p as int, hk, vk);
            }
            assert(value == weighted_sum(s, w, p as int, k));
            let q = quantize_exec(value, div);
            let ghost before = dst@;
            dst.set(p, q);
            assert forall|i: int| 0 <= i < d0.len() implies #[trigger] dst@[i] == if is_interior(i, w, h)
                && (i / w < y || (i / w == y && i % w < x + 1)) {
                expected[i]
            } else {
                d0[i]
            } by {
                if i != p {
                    lemma_index_from_position(i, w);
                    assert(before[i] == dst@[i]);
                    if i / w == y && i % w == x {
                        assert(i == p);
                    }
                }
            }
            x = x + 1;
        }
        y = y + 1;
    }
    assert forall|i: int| 0 <= i < d0.len() implies #[trigger] dst@[i] == expected[i] by {
        if is_interior(i, w, h) {
            assert(i / w < y);
        }
    }
    assert(dst@ =~= expected);
}


/// A filter drawn onto an all-zero plane gives the filtered plane.
proof fn lemma_convolve_onto_zero(s: Seq<u8>, d: Seq<u8>, w: int, h: int, k: Seq<int>)
    requires
        d.len() == s.len(),
        all_zero(d),
    ensures
        convolve_onto(s, d, w, h, k) == convolve_channel(s, w, h, k),
{
    assert(convolve_onto(s, d, w, h, k) =~= convolve_channel(s, w, h, k));
}

/// When the filtered alpha plane of `dst` is 0 everywhere, copies the alpha of
/// `src` back into the first `height - 1` rows and `width - 1` columns.
#[verifier::loop_isolation(false)]
pub fn restore_alpha_if_filter_zeroed_it(
    src: &PlanarImage,
    dst: &mut PlanarImage,
    width: usize,
    height: usize,
)
    requires
        restore_fits(width as int, height as int, src@.a.len() as int),
        restore_fits(width as int, height as int, old(dst)@.a.len() as int),
    ensures
        final(dst)@ == (PlanarView {
            a: restore_alpha(src@.a, old(dst)@.a, width as int, height as int),
            ..old(dst)@
        }),
{
    let ghost w = width as int;
    let ghost h = height as int;
    let ghost d0 = dst.a@;
    let ghost expected = restore_alpha(src.a@, d0, w, h);
    let n = dst.a.len();
    let mut i: usize = 0;
    while i < n
        invariant
            n == d0.len(),
            dst.a@ == d0,
            i <= n,
            forall|k: int| 0 <= k < i ==> d0[k] == 0,
        decreases n - i,
    {
        if dst.a[i] != 0 {
            assert(!all_zero(d0));
            return;
        }
        i = i + 1;
    }
    assert(all_zero(d0));
    if width < 2 || height < 2 {
        assert(dst.a@ =~= expected);
        return;
    }
    let m = src.a.len();
    let rows = height - 1;
    let cols = width - 1;
    let mut y: usize = 0;
    while y < rows
        invariant
            y <= rows,
            dst.a@.len() == n,
            dst.r@ == old(dst).r@,
            dst.g@ == old(dst).g@,
            dst.b@ == old(dst).b@,
            dst.width == old(dst).width,
            dst.height == old(dst).height,
            forall|i: int|
                0 <= i < n ==> #[trigger] dst.a@[i] == if in_restore_region(i, w, h) && i / w < y {
                    expected[i]
                } else {
                    d0[i]
                },
        decreases rows - y,
    {
        proof {
            lemma_row_fits(w, h - 1, y as int);
            assert((h - 1) * w == w * (h - 1)) by (nonlinear_arith);
        }
        let row = y * width;
        let mut x: usize = 0;
        while x < cols
            invariant
                x <= cols,
                dst.a@.len() == n,
                dst.r@ == old(dst).r@,
                dst.g@ == old(dst).g@,
                dst.b@ == old(dst).b@,
                dst.width == old(dst).width,
                dst.height == old(dst).height,
                forall|i: int|
                    0 <= i < n ==> #[trigger] dst.a@[i] == if in_restore_region(i, w, h) && (i / w
                        < y || (i / w == y && i % w < x)) {
                        expected[i]
                    } else {
                        d0[i]
                    },
            decreases cols - x,
        {
            let p = row + x;
            proof {
                lemma_position(w, y as int, x as int);
            }
            let v = src.a[p];
            let ghost before = dst.a@;
            dst.a.set(p, v);
            assert forall|i: int| 0 <= i < n implies #[trigger] dst.a@[i] == if in_restore_region(
                i,
                w,
                h,
            ) && (i / w < y || (i / w == y && i % w < x + 1)) {
                expected[i]
            } else {
                d0[i]
            } by {
                if i != p {
                    lemma_index_from_position(i, w);
                    assert(before[i] == dst.a@[i]);
                    if i / w == y && i % w == x {
                        assert(i == p);
                    }
                }
            }
            x = x + 1;
        }
        y = y + 1;
    }
    assert forall|i: int| 0 <= i < n implies #[trigger] dst.a@[i] == expected[i] by {
        if in_restore_region(i, w, h) {
            assert(i / w < y);
        }
    }
    assert(dst.a@ =~= expected);
}


/// An image of the same shape as `img` whose planes are all 0.
fn blank_like(img: &PlanarImage) -> (out: PlanarImage)
    ensures
        out@.r.len() == img@.r.len(),
        out@.g.len() == img@.g.len(),
        out@.b.len() == img@.b.len(),
        out@.a.len() == img@.a.len(),
        out@.width == img@.width,
        out@.height == img@.height,
{
    PlanarImage {
        r: vec![0u8; img.r.len()],
        g: vec![0u8; img.g.len()],
        b: vec![0u8; img.b.len()],
        a: vec![0u8; img.a.len()],
        width: img.width,
        height: img.height,
    }
}

/// The filter's weights need bounding only where the image has interior pixels.
pub open spec fn kernel_ok(img: PlanarView, k: Seq<int>) -> bool {
    img.width >= 3 && img.height >= 3 ==> weights_bounded(k)
}

/// The passes' weights need bounding only where the image has interior pixels.
pub open spec fn taps_ok(img: PlanarView, hk: Seq<int>, vk: Seq<int>) -> bool {
    img.width >= 3 && img.height >= 3 ==> taps_bounded(hk) && taps_bounded(vk)
}

/// `img` with its dimensions replaced by those of `dims`.
pub open spec fn with_dims_of(img: PlanarView, dims: PlanarView) -> PlanarView {
    PlanarView { width: dims.width, height: dims.height, ..img }
}

/// Writes into `dst` the image `src` filtered with the direct 3x3 kernel
/// `kernel` (weights row by row); `dst` keeps its own dimensions.
pub fn convolve_3x3(src: &PlanarImage, dst: &mut PlanarImage, kernel: [i32; 9])
    requires
        src@.wf(),
        old(dst)@.wf(),
        old(dst)@.r.len() == src@.r.len(),
        image_fits_filter(src@),
        kernel_ok(src@, kernel_of(kernel)),
    ensures
        final(dst)@ == with_dims_of(direct_image(src@, kernel_of(kernel)), old(dst)@),
{
    let width = src.width as usize;
    let height = src.height as usize;
    let ghost k = kernel_of(kernel);
    fill_zero(&mut dst.r);
    fill_zero(&mut dst.g);
    fill_zero(&mut dst.b);
    fill_zero(&mut dst.a);
    let ghost (zr, zg, zb, za) = (dst.r@, dst.g@, dst.b@, dst.a@);
    convolve_3x3_channel(&src.r, &mut dst.r, width, height, kernel);
    convolve_3x3_channel(&src.g, &mut dst.g, width, height, kernel);
    convolve_3x3_channel(&src.b, &mut dst.b, width, height, kernel);
    convolve_3x3_channel(&src.a, &mut dst.a, width, height, kernel);
    proof {
        lemma_convolve_onto_zero(src.r@, zr, width as int, height as int, k);
        lemma_convolve_onto_zero(src.g@, zg, width as int, height as int, k);
        lemma_convolve_onto_zero(src.b@, zb, width as int, height as int, k);
        lemma_convolve_onto_zero(src.a@, za, width as int, height as int, k);
    }
    restore_alpha_if_filter_zeroed_it(src, dst, width, height);
}

/// Writes into `dst` the image `src` filtered with the horizontal pass
/// `horizontal` followed by the vertical pass `vertical`; `scratch` holds the
/// row sums in between, and `dst` keeps its own dimensions.
pub fn convolve_separable_3x3(
    src: &PlanarImage,
    dst: &mut PlanarImage,
    scratch: &mut Vec<i32>,
    horizontal: [i32; 3],
    vertical: [i32; 3],
)
    requires
        src@.wf(),
        old(dst)@.wf(),
        old(dst)@.r.len() == src@.r.len(),
        src@.width >= 3 && src@.height >= 3 ==> src@.area() <= old(scratch)@.len(),
        image_fits_filter(src@),
        taps_ok(src@, taps_of(horizontal), taps_of(vertical)),
    ensures
        final(dst)@ == with_dims_of(
            direct_image(src@, outer(taps_of(vertical), taps_of(horizontal))),
            old(dst)@,
        ),
        final(scratch)@.len() == old(scratch)@.len(),
{
    let width = src.width as usize;
    let height = src.height as usize;
    let ghost k = outer(taps_of(vertical), taps_of(horizontal));
    fill_zero(&mut dst.r);
    fill_zero(&mut dst.g);
    fill_zero(&mut dst.b);
    fill_zero(&mut dst.a);
    let ghost (zr, zg, zb, za) = (dst.r@, dst.g@, dst.b@, dst.a@);
    convolve_separable_3x3_channel(&src.r, &mut dst.r, scratch, width, height, horizontal, vertical);
    convolve_separable_3x3_channel(&src.g, &mut dst.g, scratch, width, height, horizontal, vertical);
    convolve_separable_3x3_channel(&src.b, &mut dst.b, scratch, width, height, horizontal, vertical);
    convolve_separable_3x3_channel(&src.a, &mut dst.a, scratch, width, height, horizontal, vertical);
    proof {
        lemma_convolve_onto_zero(src.r@, zr, width as int, height as int, k);
        lemma_convolve_onto_zero(src.g@, zg, width as int, height as int, k);
        lemma_convolve_onto_zero(src.b@, zb, width as int, height as int, k);
        lemma_convolve_onto_zero(src.a@, za, width as int, height as int, k);
    }
    restore_alpha_if_filter_zeroed_it(src, dst, width, height);
}

/// The image produced by `convolve_3x3` into a fresh buffer.
pub(crate) fn filtered_direct(src: &PlanarImage, kernel: [i32; 9]) -> (out: PlanarImage)
    requires
        src@.wf(),
        image_fits_filter(src@),
        kernel_ok(src@, kernel_of(kernel)),
    ensures
        out@ == direct_image(src@, kernel_of(kernel)),
        out@.wf(),
{
    let mut dst = blank_like(src);
    convolve_3x3(src, &mut dst, kernel);
    dst
}

/// The image produced by `convolve_separable_3x3` into fresh buffers.
pub(crate) fn filtered_separable(src: &PlanarImage, horizontal: [i32; 3], vertical: [i32; 3]) -> (out: PlanarImage)
    requires
        src@.wf(),
        image_fits_filter(src@),
        taps_ok(src@, taps_of(horizontal), taps_of(vertical)),
    ensures
        out@ == direct_image(src@, outer(taps_of(vertical), taps_of(horizontal))),
        out@.wf(),
{
    let mut dst = blank_like(src);
    let mut scratch: Vec<i32> = vec![0i32; src.r.len()];
    convolve_separable_3x3(src, &mut dst, &mut scratch, horizontal, vertical);
    dst
}

pub open spec fn noise_reduction_kernel() -> Seq<int> {
    seq![0, -1, 7, -1, 5, 9, 0, 7, 9]
}

pub open spec fn sharpen_kernel() -> Seq<int> {
    seq![0, -1, 0, -1, 5, -1, 0, -1, 0]
}

pub open spec fn edge_detection_kernel() -> Seq<int> {
    seq![-1, -1, -1, -1, 8, -1, -1, -1, -1]
}

pub open spec fn detect_45_deg_lines_kernel() -> Seq<int> {
    seq![-1, -1, 2, -1, 2, -1, 2, -1, -1]
}

pub open spec fn detect_135_deg_lines_kernel() -> Seq<int> {
    seq![2, -1, -1, -1, 2, -1, -1, -1, 2]
}

pub open spec fn laplace_kernel() -> Seq<int> {
    seq![0, -1, 0, -1, 4, -1, 0, -1, 0]
}

pub open spec fn emboss_kernel() -> Seq<int> {
    seq![-2, -1, 0, -1, 1, 1, 0, 1, 2]
}

pub open spec fn prewitt_horizontal_kernel() -> Seq<int> {
    seq![5, -3, -3, 5, 0, -3, 5, -3, -3]
}

pub open spec fn zero_kernel() -> Seq<int> {
    seq![0, 0, 0, 0, 0, 0, 0, 0, 0]
}

/// The image with its colour planes set to 0 and its alpha plane kept.
pub open spec fn blurred(img: PlanarView) -> PlanarView {
    PlanarView {
        r: Seq::new(img.r.len(), |i: int| 0u8),
        g: Seq::new(img.g.len(), |i: int| 0u8),
        b: Seq::new(img.b.len(), |i: int| 0u8),
        a: img.a,
        width: img.width,
        height: img.height,
    }
}

/// The all-zero kernel drawn onto an all-zero plane leaves it 0.
proof fn lemma_zero_kernel_keeps_zero(s: Seq<u8>, d: Seq<u8>, w: int, h: int)
    requires
        all_zero(d),
    ensures
        all_zero(convolve_onto(s, d, w, h, zero_kernel())),
        convolve_onto(s, d, w, h, zero_kernel()).len() == d.len(),
{
    let k = zero_kernel();
    assert(k[0] == 0 && k[1] == 0 && k[2] == 0 && k[3] == 0 && k[4] == 0);
    assert(k[5] == 0 && k[6] == 0 && k[7] == 0 && k[8] == 0);
    assert(kernel_sum(k) == 0);
}

impl Pipeline {
    /// Applies the pending colour operations, then filters every plane with the
    /// direct 3x3 kernel `kernel` (weights row by row).
    pub fn convolve_3x3(self, kernel: [i32; 9]) -> (p: Self)
        requires
            self.wf(),
            image_fits_filter(self@),
            kernel_ok(self@, kernel_of(kernel)),
        ensures
            p.wf(),
            p@ == direct_image(self@, kernel_of(kernel)),
    {
        proof {
            self.lemma_view_wf();
        }
        let image = self.into_planar_image();
        Pipeline::from_wf_image(filtered_direct(&image, kernel))
    }

    /// Applies the pending colour operations, then filters every plane with the
    /// horizontal pass `horizontal` followed by the vertical pass `vertical`.
    pub fn convolve_separable_3x3(self, horizontal: [i32; 3], vertical: [i32; 3]) -> (p: Self)
        requires
            self.wf(),
            image_fits_filter(self@),
            taps_ok(self@, taps_of(horizontal), taps_of(vertical)),
        ensures
            p.wf(),
            p@ == direct_image(self@, outer(taps_of(vertical), taps_of(horizontal))),
    {
        proof {
            self.lemma_view_wf();
        }
        let image = self.into_planar_image();
        Pipeline::from_wf_image(filtered_separable(&image, horizontal, vertical))
    }

    /// Filters the colour planes with the all-zero kernel, which turns them to 0;
    /// the alpha plane is copied unchanged.
    pub fn blur_3x3(self) -> (p: Self)
        requires
            self.wf(),
            self@.width >= 3 && self@.height >= 3 ==> self@.area() <= self@.r.len(),
        ensures
            p.wf(),
            p@ == blurred(self@),
    {
        proof {
            self.lemma_view_wf();
        }
        let image = self.into_planar_image();
        let width = image.width as usize;
        let height = image.height as usize;
        let kernel: [i32; 9] = [0, 0, 0, 0, 0, 0, 0, 0, 0];
        assert(kernel_of(kernel) =~= zero_kernel());
        let mut r = image.r.clone();
        let mut g = image.g.clone();
        let mut b = image.b.clone();
        fill_zero(&mut r);
        fill_zero(&mut g);
        fill_zero(&mut b);
        let a = image.a.clone();
        assert(a@ =~= image.a@);
        let ghost (zr, zg, zb) = (r@, g@, b@);
        convolve_3x3_channel(&image.r, &mut r, width, height, kernel);
        convolve_3x3_channel(&image.g, &mut g, width, height, kernel);
        convolve_3x3_channel(&image.b, &mut b, width, height, kernel);
        proof {
            lemma_zero_kernel_keeps_zero(image.r@, zr, width as int, height as int);
            lemma_zero_kernel_keeps_zero(image.g@, zg, width as int, height as int);
            lemma_zero_kernel_keeps_zero(image.b@, zb, width as int, height as int);
        }
        let out = PlanarImage { r, g, b, a, width: image.width, height: image.height };
        assert(out@.r =~= blurred(image@).r);
        assert(out@.g =~= blurred(image@).g);
        assert(out@.b =~= blurred(image@).b);
        Pipeline::from_wf_image(out)
    }

    /// Filters with the box kernel: each pixel becomes the mean of its 3x3
    /// neighbourhood.
    pub fn box_blur(self) -> (p: Self)
        requires
            self.wf(),
            image_fits_filter(self@),
        ensures
            p.wf(),
            p@ == direct_image(self@, outer(seq![1, 1, 1], seq![1, 1, 1])),
    {
        let ones: [i32; 3] = [1, 1, 1];
        assert(taps_of(ones) =~= seq![1, 1, 1]);
        self.convolve_separable_3x3(ones, ones)
    }

    pub fn noise_reduction(self) -> (p: Self)
        requires
            self.wf(),
            image_fits_filter(self@),
        ensures
            p.wf(),
            p@ == direct_image(self@, noise_reduction_kernel()),
    {
        let kernel: [i32; 9] = [0, -1, 7, -1, 5, 9, 0, 7, 9];
        assert(kernel_of(kernel) =~= noise_reduction_kernel());
        self.convolve_3x3(kernel)
    }

    pub fn sharpen(self) -> (p: Self)
        requires
            self.wf(),
            image_fits_filter(self@),
        ensures
            p.wf(),
            p@ == direct_image(self@, sharpen_kernel()),
    {
        let kernel: [i32; 9] = [0, -1, 0, -1, 5, -1, 0, -1, 0];
        assert(kernel_of(kernel) =~= sharpen_kernel());
        self.convolve_3x3(kernel)
    }

    pub fn edge_detection(self) -> (p: Self)
        requires
            self.wf(),
            image_fits_filter(self@),
        ensures
            p.wf(),
            p@ == direct_image(self@, edge_detection_kernel()),
    {
        let kernel: [i32; 9] = [-1, -1, -1, -1, 8, -1, -1, -1, -1];
        assert(kernel_of(kernel) =~= edge_detection_kernel());
        self.convolve_3x3(kernel)
    }

    /// Leaves the pipeline as it is.
    pub fn identity(self) -> (p: Self)
        ensures
            p == self,
    {
        self
    }

    pub fn detect_horizontal_lines(self) -> (p: Self)
        requires
            self.wf(),
            image_fits_filter(self@),
        ensures
            p.wf(),
            p@ == direct_image(self@, outer(seq![-1, 2, -1], seq![1, 1, 1])),
    {
        let horizontal: [i32; 3] = [1, 1, 1];
        let vertical: [i32; 3] = [-1, 2, -1];
        assert(taps_of(horizontal) =~= seq![1, 1, 1]);
        assert(taps_of(vertical) =~= seq![-1, 2, -1]);
        self.convolve_separable_3x3(horizontal, vertical)
    }

    pub fn detect_vertical_lines(self) -> (p: Self)
        requires
            self.wf(),
            image_fits_filter(self@),
        ensures
            p.wf(),
            p@ == direct_image(self@, outer(seq![1, 1, 1], seq![-1, 2, -1])),
    {
        let horizontal: [i32; 3] = [-1, 2, -1];
        let vertical: [i32; 3] = [1, 1, 1];
        assert(taps_of(horizontal) =~= seq![-1, 2, -1]);
        assert(taps_of(vertical) =~= seq![1, 1, 1]);
        self.convolve_separable_3x3(horizontal, vertical)
    }

    pub fn detect_45_deg_lines(self) -> (p: Self)
        requires
            self.wf(),
            image_fits_filter(self@),
        ensures
            p.wf(),
            p@ == direct_image(self@, detect_45_deg_lines_kernel()),
    {
        let kernel: [i32; 9] = [-1, -1, 2, -1, 2, -1, 2, -1, -1];
        assert(kernel_of(kernel) =~= detect_45_deg_lines_kernel());
        self.convolve_3x3(kernel)
    }

    pub fn detect_135_deg_lines(self) -> (p: Self)
        requires
            self.wf(),
            image_fits_filter(self@),
        ensures
            p.wf(),
            p@ == direct_image(self@, detect_135_deg_lines_kernel()),
    {
        let kernel: [i32; 9] = [2, -1, -1, -1, 2, -1, -1, -1, 2];
        assert(kernel_of(kernel) =~= detect_135_deg_lines_kernel());
        self.convolve_3x3(kernel)
    }

    pub fn laplace(self) -> (p: Self)
        requires
            self.wf(),
            image_fits_filter(self@),
        ensures
            p.wf(),
            p@ == direct_image(self@, laplace_kernel()),
    {
        let kernel: [i32; 9] = [0, -1, 0, -1, 4, -1, 0, -1, 0];
        assert(kernel_of(kernel) =~= laplace_kernel());
        self.convolve_3x3(kernel)
    }

    pub fn emboss(self) -> (p: Self)
        requires
            self.wf(),
            image_fits_filter(self@),
        ensures
            p.wf(),
            p@ == direct_image(self@, emboss_kernel()),
    {
        let kernel: [i32; 9] = [-2, -1, 0, -1, 1, 1, 0, 1, 2];
        assert(kernel_of(kernel) =~= emboss_kernel());
        self.convolve_3x3(kernel)
    }

    pub fn sobel_horizontal(self) -> (p: Self)
        requires
            self.wf(),
            image_fits_filter(self@),
        ensures
            p.wf(),
            p@ == direct_image(self@, outer(seq![-1, 0, 1], seq![1, 2, 1])),
    {
        let horizontal: [i32; 3] = [1, 2, 1];
        let vertical: [i32; 3] = [-1, 0, 1];
        assert(taps_of(horizontal) =~= seq![1, 2, 1]);
        assert(taps_of(vertical) =~= seq![-1, 0, 1]);
        self.convolve_separable_3x3(horizontal, vertical)
    }

    pub fn prewitt_horizontal(self) -> (p: Self)
        requires
            self.wf(),
            image_fits_filter(self@),
        ensures
            p.wf(),
            p@ == direct_image(self@, prewitt_horizontal_kernel()),
    {
        let kernel: [i32; 9] = [5, -3, -3, 5, 0, -3, 5, -3, -3];
        assert(kernel_of(kernel) =~= prewitt_horizontal_kernel());
        self.convolve_3x3(kernel)
    }

    pub fn sobel_vertical(self) -> (p: Self)
        requires
            self.wf(),
            image_fits_filter(self@),
        ensures
            p.wf(),
            p@ == direct_image(self@, outer(seq![1, 2, 1], seq![-1, 0, 1])),
    {
        let horizontal: [i32; 3] = [-1, 0, 1];
        let vertical: [i32; 3] = [1, 2, 1];
        assert(taps_of(horizontal) =~= seq![-1, 0, 1]);
        assert(taps_of(vertical) =~= seq![1, 2, 1]);
        self.convolve_separable_3x3(horizontal, vertical)
    }
}

/// Two passes whose weights lie within `max_tap()` make an outer kernel whose
/// weights lie within `max_weight()`, so the direct filter accepts it too.
pub proof fn lemma_outer_within_bounds(vk: Seq<int>, hk: Seq<int>)
    requires
        vk.len() == 3,
        hk.len() == 3,
        taps_bounded(vk),
        taps_bounded(hk),
    ensures
        weights_bounded(outer(vk, hk)),
{
    assert forall|i: int, j: int| 0 <= i < 3 && 0 <= j < 3 implies -7225 <= #[trigger] (vk[i]
        * hk[j]) <= 7225 by {
        assert(-85 <= vk[i] <= 85 && -85 <= hk[j] <= 85);
        assert(-7225 <= vk[i] * hk[j] <= 7225) by (nonlinear_arith)
            requires
                -85 <= vk[i] <= 85,
                -85 <= hk[j] <= 85,
        ;
    }
    let k = outer(vk, hk);
    assert(k[0] == vk[0] * hk[0] && k[1] == vk[0] * hk[1] && k[2] == vk[0] * hk[2]);
    assert(k[3] == vk[1] * hk[0] && k[4] == vk[1] * hk[1] && k[5] == vk[1] * hk[2]);
    assert(k[6] == vk[2] * hk[0] && k[7] == vk[2] * hk[1] && k[8] == vk[2] * hk[2]);
}

/// Colour operations, channel swaps and filters keep an image's planes equal
/// in length and exactly `width * height` long, and keep its dimensions.
pub proof fn lemma_operations_keep_area(
    img: PlanarView,
    ops: Seq<PixelOp>,
    c1: int,
    c2: int,
    k: Seq<int>,
)
    requires
        img.wf(),
        img.r.len() == img.area(),
        0 <= c1 <= 2,
        0 <= c2 <= 2,
    ensures
        ops_image(ops, img).wf() && ops_image(ops, img).r.len() == img.area()
            && ops_image(ops, img).area() == img.area(),
        swap_image(img, c1, c2).wf() && swap_image(img, c1, c2).r.len() == img.area()
            && swap_image(img, c1, c2).area() == img.area(),
        direct_image(img, k).wf() && direct_image(img, k).r.len() == img.area()
            && direct_image(img, k).area() == img.area(),
        blurred(img).wf() && blurred(img).r.len() == img.area() && blurred(img).area()
            == img.area(),
{
    lemma_ops_keep_alpha_and_shape(ops, img);
}

/// An interior pixel lies within the first `w * h` pixels, and so does its
/// whole neighbourhood.
proof fn lemma_interior_within_area(i: int, w: int, h: int)
    requires
        is_interior(i, w, h),
    ensures
        0 <= i - w - 1,
        i + w + 1 < w * h,
{
    lemma_index_from_position(i, w);
    lemma_neighbourhood(w, h, i / w, i % w);
}

/// Pixel `i` of a filtered plane depends only on the first `w * h` pixels.
proof fn lemma_convolve_channel_reads_area(s: Seq<u8>, t: Seq<u8>, w: int, h: int, k: Seq<int>, i: int)
    requires
        w * h <= s.len(),
        w * h <= t.len(),
        forall|j: int| 0 <= j < w * h ==> s[j] == t[j],
        0 <= i < w * h,
    ensures
        convolve_channel(s, w, h, k)[i] == convolve_channel(t, w, h, k)[i],
{
    if is_interior(i, w, h) {
        lemma_interior_within_area(i, w, h);
        assert(s[i - w - 1] == t[i - w - 1] && s[i - w] == t[i - w] && s[i - w + 1] == t[i - w + 1]);
        assert(s[i - 1] == t[i - 1] && s[i] == t[i] && s[i + 1] == t[i + 1]);
        assert(s[i + w - 1] == t[i + w - 1] && s[i + w] == t[i + w] && s[i + w + 1] == t[i + w + 1]);
    }
}

/// A filtered plane is 0 beyond the first `w * h` pixels.
proof fn lemma_convolve_channel_zero_beyond_area(s: Seq<u8>, w: int, h: int, k: Seq<int>, i: int)
    requires
        0 <= i < s.len(),
        w * h <= i,
    ensures
        convolve_channel(s, w, h, k)[i] == 0,
{
    if is_interior(i, w, h) {
        lemma_interior_within_area(i, w, h);
    }
}

/// Two images of the same size whose planes agree on the first
/// `width * height` pixels filter to images that agree there too.
proof fn lemma_direct_image_reads_area(u: PlanarView, v: PlanarView, k: Seq<int>)
    requires
        u.wf(),
        v.wf(),
        u.width == v.width,
        u.height == v.height,
        u.area() <= u.r.len(),
        u.area() <= v.r.len(),
        forall|c: int, i: int| 0 <= c < 4 && 0 <= i < u.area() ==> #[trigger] u.plane(c)[i] == v.plane(c)[i],
    ensures
        forall|c: int, i: int|
            0 <= c < 4 && 0 <= i < u.area() ==> #[trigger] direct_image(u, k).plane(c)[i]
                == direct_image(v, k).plane(c)[i],
{
    let w = u.width as int;
    let h = u.height as int;
    let n = u.area();
    assert(forall|j: int| 0 <= j < n ==> u.r[j] == v.r[j]) by {
        assert forall|j: int| 0 <= j < n implies u.r[j] == v.r[j] by {
            assert(u.plane(0)[j] == v.plane(0)[j]);
        }
    }
    assert(forall|j: int| 0 <= j < n ==> u.g[j] == v.g[j]) by {
        assert forall|j: int| 0 <= j < n implies u.g[j] == v.g[j] by {
            assert(u.plane(1)[j] == v.plane(1)[j]);
        }
    }
    assert(forall|j: int| 0 <= j < n ==> u.b[j] == v.b[j]) by {
        assert forall|j: int| 0 <= j < n implies u.b[j] == v.b[j] by {
            assert(u.plane(2)[j] == v.plane(2)[j]);
        }
    }
    assert(forall|j: int| 0 <= j < n ==> u.a[j] == v.a[j]) by {
        assert forall|j: int| 0 <= j < n implies u.a[j] == v.a[j] by {
            assert(u.plane(3)[j] == v.plane(3)[j]);
        }
    }
    let cu = convolve_channel(u.a, w, h, k);
    let cv = convolve_channel(v.a, w, h, k);
    assert forall|j: int| 0 <= j < n implies #[trigger] cu[j] == cv[j] by {
        lemma_convolve_channel_reads_area(u.a, v.a, w, h, k, j);
    }
    assert(all_zero(cu) <==> all_zero(cv)) by {
        if all_zero(cu) {
            assert forall|j: int| 0 <= j < cv.len() implies cv[j] == 0 by {
                if j < n {
                    assert(cu[j] == cv[j]);
                } else {
                    lemma_convolve_channel_zero_beyond_area(v.a, w, h, k, j);
                }
            }
        }
        if all_zero(cv) {
            assert forall|j: int| 0 <= j < cu.len() implies cu[j] == 0 by {
                if j < n {
                    assert(cu[j] == cv[j]);
                } else {
                    lemma_convolve_channel_zero_beyond_area(u.a, w, h, k, j);
                }
            }
        }
    }
    assert forall|c: int, i: int| 0 <= c < 4 && 0 <= i < n implies #[trigger] direct_image(u, k).plane(c)[i]
        == direct_image(v, k).plane(c)[i] by {
        if c == 0 {
            lemma_convolve_channel_reads_area(u.r, v.r, w, h, k, i);
        } else if c == 1 {
            lemma_convolve_channel_reads_area(u.g, v.g, w, h, k, i);
        } else if c == 2 {
            lemma_convolve_channel_reads_area(u.b, v.b, w, h, k, i);
        } else {
            assert(cu[i] == cv[i]);
        }
    }
}

/// A 3x3 filter reads and writes only the first `width * height` pixels of the
/// planes: filtering an image gives the same interleaved result as filtering
/// its interleaved copy split back into planes. So a pipeline filters exactly
/// the image that finishing it would hand out, pending colour operations
/// applied first.
pub proof fn lemma_filter_reads_finished_image(img: PlanarView, k: Seq<int>)
    requires
        img.wf(),
        img.covers_area(),
    ensures
        photon_of(direct_image(planar_of(photon_of(img)), k)) == photon_of(direct_image(img, k)),
{
    let copy = planar_of(photon_of(img));
    let n = img.area();
    assert(photon_of(img).raw.len() == 4 * n);
    assert(copy.r.len() == n);
    assert forall|c: int, i: int| 0 <= c < 4 && 0 <= i < n implies #[trigger] copy.plane(c)[i]
        == img.plane(c)[i] by {
        assert((4 * i + c) / 4 == i && (4 * i + c) % 4 == c);
    }
    lemma_direct_image_reads_area(copy, img, k);
    let x = photon_of(direct_image(copy, k));
    let y = photon_of(direct_image(img, k));
    assert forall|j: int| 0 <= j < 4 * n implies #[trigger] x.raw[j] == y.raw[j] by {
        assert(0 <= j / 4 < n && 0 <= j % 4 < 4);
        assert(direct_image(copy, k).plane(j % 4)[j / 4] == direct_image(img, k).plane(j % 4)[j
            / 4]);
    }
    assert(x.raw =~= y.raw);
}

/// For positive `a` and `b`: `a / b` limited to 255 is 255 when `a >= 255 * b`,
/// and otherwise the `q` with `q * b <= a < (q + 1) * b`.
proof fn lemma_clamped_quotient(a: int, b: int)
    requires
        a > 0,
        b > 0,
    ensures
        a >= 255 * b ==> clamp_u8(a / b) == 255,
        a < 255 * b ==> clamp_u8(a / b) * b <= a < (clamp_u8(a / b) + 1) * b,
{
    let t = a / b;
    lemma_fundamental_div_mod(a, b);
    let r = a % b;
    assert(0 <= r < b);
    assert(a == b * t + r);
    if a >= 255 * b {
        assert(t >= 255) by (nonlinear_arith)
            requires
                a == b * t + r,
                0 <= r < b,
                a >= 255 * b,
                b > 0,
        ;
    } else {
        assert(0 <= t < 255 && t * b <= a < (t + 1) * b) by (nonlinear_arith)
            requires
                a == b * t + r,
                0 <= r < b,
                a < 255 * b,
                a > 0,
                b > 0,
        ;
    }
}

/// An interior pixel `(y, x)` of a filtered plane, `1 <= y <= h - 2` and
/// `1 <= x <= w - 2`. Let `v` be the weighted sum of its 3x3 neighbourhood
/// (weights row by row) and `d` the sum of the weights, or 1 when they sum to
/// 0. The pixel is `v / d` truncated toward zero and limited to `0..=255`: it
/// is 0 when `v` is 0 or `v` and `d` differ in sign; otherwise, with `a = |v|`
/// and `b = |d|`, it is 255 when `a >= 255 * b` and else the `q` with
/// `q * b <= a < (q + 1) * b`. Whatever the width, and drawn onto another plane
/// too.
pub proof fn lemma_filtered_interior_pixel(
    s: Seq<u8>,
    dst: Seq<u8>,
    w: int,
    h: int,
    k: Seq<int>,
    y: int,
    x: int,
)
    requires
        k.len() == 9,
        1 <= y <= h - 2,
        1 <= x <= w - 2,
        w * h <= s.len(),
        w * h <= dst.len(),
    ensures
        ({
            let v = k[0] * s[(y - 1) * w + x - 1] + k[1] * s[(y - 1) * w + x] + k[2] * s[(y - 1) * w
                + x + 1] + k[3] * s[y * w + x - 1] + k[4] * s[y * w + x] + k[5] * s[y * w + x + 1]
                + k[6] * s[(y + 1) * w + x - 1] + k[7] * s[(y + 1) * w + x] + k[8] * s[(y + 1) * w
                + x + 1];
            let sum = k[0] + k[1] + k[2] + k[3] + k[4] + k[5] + k[6] + k[7] + k[8];
            let d = if sum == 0 { 1 } else { sum };
            let q = convolve_channel(s, w, h, k)[y * w + x];
            let a = if v < 0 { -v } else { v };
            let b = if d < 0 { -d } else { d };
            &&& convolve_onto(s, dst, w, h, k)[y * w + x] == q
            &&& (v == 0 || (v < 0 && d > 0) || (v > 0 && d < 0)) ==> q == 0
            &&& ((v > 0 && d > 0) || (v < 0 && d < 0)) ==> {
                &&& a >= 255 * b ==> q == 255
                &&& a < 255 * b ==> q * b <= a < (q + 1) * b
            }
        }),
{
    lemma_neighbourhood(w, h, y, x);
    let i = y * w + x;
    assert((y - 1) * w + x - 1 == i - w - 1 && (y - 1) * w + x == i - w && (y - 1) * w + x + 1 == i
        - w + 1);
    assert((y + 1) * w + x - 1 == i + w - 1 && (y + 1) * w + x == i + w && (y + 1) * w + x + 1 == i
        + w + 1);
    let v = weighted_sum(s, w, i, k);
    let d = divisor(kernel_sum(k));
    if v > 0 && d > 0 {
        lemma_clamped_quotient(v, d);
    } else if v < 0 && d < 0 {
        lemma_clamped_quotient(-v, -d);
    }
}

/// A pixel `(y, x)` outside the interior (first or last row or column, or
/// beyond the image's rows) of a filtered plane is 0; drawn onto another plane,
/// the filter leaves that plane's pixel as it was.
pub proof fn lemma_filtered_border_pixel(
    s: Seq<u8>,
    dst: Seq<u8>,
    w: int,
    h: int,
    k: Seq<int>,
    y: int,
    x: int,
)
    requires
        0 <= y,
        0 <= x < w,
        !(1 <= y <= h - 2 && 1 <= x <= w - 2),
    ensures
        y * w + x < s.len() ==> convolve_channel(s, w, h, k)[y * w + x] == 0,
        y * w + x < dst.len() ==> convolve_onto(s, dst, w, h, k)[y * w + x] == dst[y * w + x],
{
    lemma_position(w, y, x);
    assert(0 <= y * w + x) by (nonlinear_arith)
        requires
            0 <= y,
            0 <= x < w,
    ;
}

/// A filtered plane is as long as its source, a filter drawn onto a plane keeps
/// that plane's length, and an image narrower or lower than 3 pixels has no
/// interior: every filtered pixel is 0 and a plane drawn onto stays as it was.
pub proof fn lemma_filter_shape(s: Seq<u8>, dst: Seq<u8>, w: int, h: int, k: Seq<int>)
    ensures
        convolve_channel(s, w, h, k).len() == s.len(),
        convolve_onto(s, dst, w, h, k).len() == dst.len(),
        w < 3 || h < 3 ==> convolve_onto(s, dst, w, h, k) == dst,
        w < 3 || h < 3 ==> forall|i: int|
            0 <= i < s.len() ==> #[trigger] convolve_channel(s, w, h, k)[i] == 0,
{
    if w < 3 || h < 3 {
        assert(convolve_onto(s, dst, w, h, k) =~= dst);
    }
}

/// The kernel with a single weight of 1 in the centre leaves every interior
/// pixel of every plane as it was.
pub proof fn lemma_identity_kernel_keeps_interior(s: Seq<u8>, w: int, h: int, y: int, x: int)
    requires
        1 <= y <= h - 2,
        1 <= x <= w - 2,
        w * h <= s.len(),
    ensures
        convolve_channel(s, w, h, seq![0, 0, 0, 0, 1, 0, 0, 0, 0])[y * w + x] == s[y * w + x],
{
    let k = seq![0int, 0, 0, 0, 1, 0, 0, 0, 0];
    lemma_neighbourhood(w, h, y, x);
    let i = y * w + x;
    assert(k[0] == 0 && k[1] == 0 && k[2] == 0 && k[3] == 0 && k[4] == 1);
    assert(k[5] == 0 && k[6] == 0 && k[7] == 0 && k[8] == 0);
    assert(weighted_sum(s, w, i, k) == s[i] as int);
    assert(kernel_sum(k) == 1);
}

/// The colour planes of a filtered image are its colour planes filtered one by
/// one, its alpha plane is its alpha plane filtered and then restored, and its
/// dimensions stay.
pub proof fn lemma_direct_image_planes(img: PlanarView, k: Seq<int>, c: int)
    requires
        0 <= c <= 2,
    ensures
        direct_image(img, k).plane(c) == convolve_channel(
            img.plane(c),
            img.width as int,
            img.height as int,
            k,
        ),
        direct_image(img, k).a == restore_alpha(
            img.a,
            convolve_channel(img.a, img.width as int, img.height as int, k),
            img.width as int,
            img.height as int,
        ),
        direct_image(img, k).width == img.width,
        direct_image(img, k).height == img.height,
{
}

/// The alpha restore keeps the plane's length. When the filtered alpha plane is
/// 0 everywhere, pixel `(y, x)` takes the source alpha in the first `h - 1`
/// rows and `w - 1` columns and stays 0 elsewhere; when any filtered alpha pixel
/// is not 0, the filtered plane is kept as it is.
pub proof fn lemma_restore_alpha_pixel(src_a: Seq<u8>, dst_a: Seq<u8>, w: int, h: int, y: int, x: int)
    requires
        0 <= y,
        0 <= x < w,
        y * w + x < dst_a.len(),
        y * w + x < src_a.len(),
    ensures
        restore_alpha(src_a, dst_a, w, h).len() == dst_a.len(),
        (forall|j: int| 0 <= j < dst_a.len() ==> dst_a[j] == 0) ==> restore_alpha(
            src_a,
            dst_a,
            w,
            h,
        )[y * w + x] == (if y < h - 1 && x < w - 1 {
            src_a[y * w + x]
        } else {
            0
        }),
        (exists|j: int| 0 <= j < dst_a.len() && dst_a[j] != 0) ==> restore_alpha(src_a, dst_a, w, h)
            == dst_a,
{
    lemma_position(w, y, x);
    assert(0 <= y * w + x) by (nonlinear_arith)
        requires
            0 <= y,
            0 <= x < w,
    ;
}

} // verus!
