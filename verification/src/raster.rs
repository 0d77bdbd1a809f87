//! Layout of a row-major RGBA buffer: four bytes per pixel, `w` pixels per row.

use vstd::prelude::*;

verus! {

/// Index of channel `c` of pixel `(x, y)` in a buffer whose rows are `w` pixels wide.
pub open spec fn pix(w: int, x: int, y: int, c: int) -> int {
    4 * (y * w + x) + c
}

/// Number of bytes that a `w` by `h` image takes.
pub open spec fn image_len(w: int, h: int) -> int {
    4 * (w * h)
}

/// Column of the pixel whose byte is `k`.
pub open spec fn col_of(w: int, k: int) -> int {
    (k / 4) % w
}

/// Row of the pixel whose byte is `k`.
pub open spec fn row_of(w: int, k: int) -> int {
    (k / 4) / w
}

/// Channel of byte `k`.
pub open spec fn chan_of(k: int) -> int {
    k % 4
}

/// A byte index inside the image splits into a column, a row and a channel
/// inside the image, and joins back into the same index.
pub proof fn lemma_split(w: int, h: int, k: int)
    requires
        0 < w,
        0 < h,
        0 <= k < image_len(w, h),
    ensures
        0 <= col_of(w, k) < w,
        0 <= row_of(w, k) < h,
        0 <= chan_of(k) < 4,
        pix(w, col_of(w, k), row_of(w, k), chan_of(k)) == k,
{
    let q = k / 4;
    let c = k % 4;
    vstd::arithmetic::div_mod::lemma_fundamental_div_mod(k, 4);
    vstd::arithmetic::div_mod::lemma_mod_pos_bound(k, 4);
    assert(k == 4 * q + c && 0 <= c < 4);
    assert(0 <= q < w * h) by (nonlinear_arith)
        requires k == 4 * q + c, 0 <= c < 4, 0 <= k, k < 4 * (w * h);
    let x = q % w;
    let y = q / w;
    vstd::arithmetic::div_mod::lemma_fundamental_div_mod(q, w);
    assert(0 <= x < w) by {
        vstd::arithmetic::div_mod::lemma_mod_pos_bound(q, w);
    }
    assert(q == w * y + x);
    assert(y * w == w * y) by (nonlinear_arith);
    assert(0 <= y < h) by (nonlinear_arith)
        requires q == w * y + x, 0 <= x < w, 0 <= q < w * h, 0 < w;
}

/// A column, row and channel inside the image give a byte inside the image,
/// from which they are read back.
pub proof fn lemma_join(w: int, h: int, x: int, y: int, c: int)
    requires
        0 <= x < w,
        0 <= y < h,
        0 <= c < 4,
    ensures
        0 <= y * w + x < w * h,
        0 <= pix(w, x, y, c) < image_len(w, h),
        col_of(w, pix(w, x, y, c)) == x,
        row_of(w, pix(w, x, y, c)) == y,
        chan_of(pix(w, x, y, c)) == c,
{
    let q = y * w + x;
    assert(0 <= q < w * h) by (nonlinear_arith)
        requires 0 <= x < w, 0 <= y < h, q == y * w + x;
    let k = 4 * q + c;
    vstd::arithmetic::div_mod::lemma_fundamental_div_mod_converse(k, 4, q, c);
    vstd::arithmetic::div_mod::lemma_fundamental_div_mod_converse(q, w, y, x);
}

/// A byte index inside a `w` by `h` image means both sides are positive.
pub proof fn lemma_image_dims(w: int, h: int, k: int)
    requires
        0 <= w,
        0 <= h,
        0 <= k < image_len(w, h),
    ensures
        0 < w,
        0 < h,
{
    assert(0 < w && 0 < h) by (nonlinear_arith)
        requires 0 <= w, 0 <= h, 0 <= k < 4 * (w * h);
}

} // verus!
