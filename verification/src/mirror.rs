//! Mirroring of an RGBA image: left to right, top to bottom, or both.

use vstd::prelude::*;

use crate::plugin::{STATUS_BAD_PARAMS, STATUS_FAILED, STATUS_OK};
use crate::raster::{
    chan_of, col_of, image_len, lemma_image_dims, lemma_join, lemma_split, pix, row_of,
};

verus! {

/// Parameters of the mirror.
#[derive(Clone, Copy, Debug, PartialEq, Eq)]
pub struct ImageConfig {
    /// Reverse the order of the pixels in each row.
    pub horizontal: bool,
    /// Reverse the order of the rows.
    pub vertical: bool,
}

impl Default for ImageConfig {
    fn default() -> (res: Self)
        ensures
            !res.horizontal,
            !res.vertical,
    {
        ImageConfig { horizontal: false, vertical: false }
    }
}

/// `img` with the pixels of each row of the `w` by `h` image at its start in
/// reverse order; the bytes after the image stay.
pub open spec fn flip_h(img: Seq<u8>, w: int, h: int) -> Seq<u8> {
    Seq::new(
        img.len(),
        |k: int|
            if 0 <= k < image_len(w, h) {
                img[pix(w, w - 1 - col_of(w, k), row_of(w, k), chan_of(k))]
            } else {
                img[k]
            },
    )
}

/// `img` with the rows of the `w` by `h` image at its start in reverse order;
/// the bytes after the image stay.
pub open spec fn flip_v(img: Seq<u8>, w: int, h: int) -> Seq<u8> {
    Seq::new(
        img.len(),
        |k: int|
            if 0 <= k < image_len(w, h) {
                img[pix(w, col_of(w, k), h - 1 - row_of(w, k), chan_of(k))]
            } else {
                img[k]
            },
    )
}

/// The buffer after the mirror: first the rows are reversed in themselves,
/// where `horizontal`, then their order is reversed, where `vertical`.
pub open spec fn mirrored(img: Seq<u8>, w: int, h: int, config: ImageConfig) -> Seq<u8> {
    let a = if config.horizontal {
        flip_h(img, w, h)
    } else {
        img
    };
    if config.vertical {
        flip_v(a, w, h)
    } else {
        a
    }
}

/// The mirror cannot run on these dimensions: a horizontal mirror needs
/// rows of at least one pixel, a vertical one at least one row of at least
/// one pixel.
pub open spec fn mirror_panics(w: int, h: int, config: ImageConfig) -> bool {
    ||| config.horizontal && w == 0
    ||| config.vertical && (w == 0 || h == 0)
}

/// Exchanges the four bytes of the pixels that start at `i` and at `j`.
fn swap_pixels(v: &mut Vec<u8>, i: usize, j: usize)
    requires
        i + 4 <= j,
        j + 4 <= old(v).len(),
    ensures
        final(v).len() == old(v).len(),
        forall|c: int| 0 <= c < 4 ==> #[trigger] final(v)@[i + c] == old(v)@[j + c],
        forall|c: int| 0 <= c < 4 ==> #[trigger] final(v)@[j + c] == old(v)@[i + c],
        forall|k: int|
            0 <= k < old(v).len() && !(i <= k < i + 4) && !(j <= k < j + 4) ==> #[trigger] final(v)@[k]
                == old(v)@[k],
{
    let mut c: usize = 0;
    let ghost before = v@;
    while c < 4
        invariant
            i + 4 <= j,
            j + 4 <= before.len(),
            before == old(v)@,
            v.len() == before.len(),
            0 <= c <= 4,
            forall|d: int| 0 <= d < c ==> #[trigger] v@[i + d] == before[j + d],
            forall|d: int| 0 <= d < c ==> #[trigger] v@[j + d] == before[i + d],
            forall|k: int|
                0 <= k < before.len() && !(i <= k < i + c) && !(j <= k < j + c) ==> #[trigger] v@[k]
                    == before[k],
        decreases 4 - c,
    {
        let a = v[i + c];
        let b = v[j + c];
        v.set(i + c, b);
        v.set(j + c, a);
        c = c + 1;
    }
}

/// Reverses the pixels of each row of the `w` by `h` image at the start of
/// `rgba`, in place.
fn flip_rows(rgba: &mut Vec<u8>, w: usize, h: usize)
    requires
        0 < w,
        image_len(w as int, h as int) <= old(rgba).len(),
    ensures
        final(rgba)@ == flip_h(old(rgba)@, w as int, h as int),
{
    let ghost img = rgba@;
    let ghost (wi, hi) = (w as int, h as int);
    let mut y: usize = 0;
    while y < h
        invariant
            wi == w, hi == h, 0 < w,
            img == old(rgba)@,
            image_len(wi, hi) <= img.len(),
            rgba.len() == img.len(),
            0 <= y <= h,
            forall|k: int| image_len(wi, hi) <= k < img.len() ==> #[trigger] rgba@[k] == img[k],
            forall|x: int, yy: int, c: int|
                0 <= x < wi && 0 <= yy < hi && 0 <= c < 4 ==> #[trigger] rgba@[pix(wi, x, yy, c)] == if yy < y {
                    img[pix(wi, wi - 1 - x, yy, c)]
                } else {
                    img[pix(wi, x, yy, c)]
                },
        decreases h - y,
    {
        let mut left: usize = 0;
        let mut right: usize = w - 1;
        while left < right
            invariant
                wi == w, hi == h, 0 < w,
                img == old(rgba)@,
                image_len(wi, hi) <= img.len(),
                rgba.len() == img.len(),
                0 <= y < h,
                left + right == w - 1,
                left <= w,
                forall|k: int| image_len(wi, hi) <= k < img.len() ==> #[trigger] rgba@[k] == img[k],
                forall|x: int, yy: int, c: int|
                    0 <= x < wi && 0 <= yy < hi && 0 <= c < 4 ==> #[trigger] rgba@[pix(wi, x, yy, c)]
                        == if yy < y || (yy == y && (x < left || x > right)) {
                        img[pix(wi, wi - 1 - x, yy, c)]
                    } else {
                        img[pix(wi, x, yy, c)]
                    },
            decreases right + 1 - left,
        {
            proof {
                lemma_join(wi, hi, left as int, y as int, 0);
                lemma_join(wi, hi, left as int, y as int, 3);
                lemma_join(wi, hi, right as int, y as int, 0);
                lemma_join(wi, hi, right as int, y as int, 3);
            }
            let i: usize = 4 * (y * w + left);
            let j: usize = 4 * (y * w + right);
            let ghost before = rgba@;
            swap_pixels(rgba, i, j);
            proof {
                assert forall|x: int, yy: int, c: int|
                    0 <= x < wi && 0 <= yy < hi && 0 <= c < 4 implies #[trigger] rgba@[pix(wi, x, yy, c)]
                        == if yy < y || (yy == y && (x < left + 1 || x > right - 1)) {
                        img[pix(wi, wi - 1 - x, yy, c)]
                    } else {
                        img[pix(wi, x, yy, c)]
                    } by {
                    lemma_join(wi, hi, x, yy, c);
                    let k = pix(wi, x, yy, c);
                    if i <= k < i + 4 {
                        lemma_join(wi, hi, left as int, y as int, k - i);
                        assert(k == pix(wi, left as int, y as int, k - i));
                        lemma_join(wi, hi, right as int, y as int, k - i);
                        assert(rgba@[k] == before[pix(wi, right as int, y as int, k - i)]);
                    } else if j <= k < j + 4 {
                        lemma_join(wi, hi, right as int, y as int, k - j);
                        assert(k == pix(wi, right as int, y as int, k - j));
                        lemma_join(wi, hi, left as int, y as int, k - j);
                        assert(rgba@[k] == before[pix(wi, left as int, y as int, k - j)]);
                    } else {
                        assert(rgba@[k] == before[k]);
                        if yy == y {
                            assert(x != left && x != right) by {
                                if x == left {
                                    assert(k == i + c);
                                } else if x == right {
                                    assert(k == j + c);
                                }
                            }
                        }
                    }
                }
            }
            left = left + 1;
            right = right - 1;
        }
        proof {
            assert forall|x: int, yy: int, c: int|
                0 <= x < wi && 0 <= yy < hi && 0 <= c < 4 implies #[trigger] rgba@[pix(wi, x, yy, c)]
                    == if yy < y + 1 {
                    img[pix(wi, wi - 1 - x, yy, c)]
                } else {
                    img[pix(wi, x, yy, c)]
                } by {
                if yy == y && left <= x <= right {
                    assert(wi - 1 - x == x);
                }
            }
        }
        y = y + 1;
    }
    proof {
        let target = flip_h(img, wi, hi);
        assert forall|k: int| 0 <= k < rgba@.len() implies #[trigger] rgba@[k] == target[k] by {
            if k < image_len(wi, hi) {
                lemma_image_dims(wi, hi, k);
                lemma_split(wi, hi, k);
                let (x, yy, c) = (col_of(wi, k), row_of(wi, k), chan_of(k));
                assert(rgba@[pix(wi, x, yy, c)] == img[pix(wi, wi - 1 - x, yy, c)]);
            }
        }
        assert(rgba@ =~= target);
    }
}


/// Reverses the order of the rows of the `w` by `h` image at the start of
/// `rgba`, in place.
fn flip_row_order(rgba: &mut Vec<u8>, w: usize, h: usize)
    requires
        0 < w,
        0 < h,
        image_len(w as int, h as int) <= old(rgba).len(),
    ensures
        final(rgba)@ == flip_v(old(rgba)@, w as int, h as int),
{
    let ghost img = rgba@;
    let ghost (wi, hi) = (w as int, h as int);
    let mut top: usize = 0;
    let mut bottom: usize = h - 1;
    while top < bottom
        invariant
            wi == w, hi == h, 0 < w, 0 < h,
            img == old(rgba)@,
            image_len(wi, hi) <= img.len(),
            rgba.len() == img.len(),
            top + bottom == h - 1,
            top <= h,
            forall|k: int| image_len(wi, hi) <= k < img.len() ==> #[trigger] rgba@[k] == img[k],
            forall|x: int, yy: int, c: int|
                0 <= x < wi && 0 <= yy < hi && 0 <= c < 4 ==> #[trigger] rgba@[pix(wi, x, yy, c)]
                    == if yy < top || yy > bottom {
                    img[pix(wi, x, hi - 1 - yy, c)]
                } else {
                    img[pix(wi, x, yy, c)]
                },
        decreases bottom + 1 - top,
    {
        let mut x: usize = 0;
        while x < w
            invariant
                wi == w, hi == h, 0 < w, 0 < h,
                img == old(rgba)@,
                image_len(wi, hi) <= img.len(),
                rgba.len() == img.len(),
                top + bottom == h - 1,
                top < bottom,
                0 <= x <= w,
                forall|k: int| image_len(wi, hi) <= k < img.len() ==> #[trigger] rgba@[k] == img[k],
                forall|xx: int, yy: int, c: int|
                    0 <= xx < wi && 0 <= yy < hi && 0 <= c < 4 ==> #[trigger] rgba@[pix(wi, xx, yy, c)]
                        == if yy < top || yy > bottom || ((yy == top || yy == bottom) && xx < x) {
                        img[pix(wi, xx, hi - 1 - yy, c)]
                    } else {
                        img[pix(wi, xx, yy, c)]
                    },
            decreases w - x,
        {
            proof {
                lemma_join(wi, hi, x as int, top as int, 0);
                lemma_join(wi, hi, x as int, top as int, 3);
                lemma_join(wi, hi, x as int, bottom as int, 0);
                lemma_join(wi, hi, x as int, bottom as int, 3);
                assert(top * wi + wi <= bottom * wi) by (nonlinear_arith)
                    requires top < bottom, wi > 0;
            }
            let i: usize = 4 * (top * w + x);
            let j: usize = 4 * (bottom * w + x);
            let ghost before = rgba@;
            swap_pixels(rgba, i, j);
            proof {
                assert forall|xx: int, yy: int, c: int|
                    0 <= xx < wi && 0 <= yy < hi && 0 <= c < 4 implies #[trigger] rgba@[pix(wi, xx, yy, c)]
                        == if yy < top || yy > bottom || ((yy == top || yy == bottom) && xx < x + 1) {
                        img[pix(wi, xx, hi - 1 - yy, c)]
                    } else {
                        img[pix(wi, xx, yy, c)]
                    } by {
                    lemma_join(wi, hi, xx, yy, c);
                    let k = pix(wi, xx, yy, c);
                    if i <= k < i + 4 {
                        lemma_join(wi, hi, x as int, top as int, k - i);
                        assert(k == pix(wi, x as int, top as int, k - i));
                        lemma_join(wi, hi, x as int, bottom as int, k - i);
                        assert(rgba@[k] == before[pix(wi, x as int, bottom as int, k - i)]);
                    } else if j <= k < j + 4 {
                        lemma_join(wi, hi, x as int, bottom as int, k - j);
                        assert(k == pix(wi, x as int, bottom as int, k - j));
                        lemma_join(wi, hi, x as int, top as int, k - j);
                        assert(rgba@[k] == before[pix(wi, x as int, top as int, k - j)]);
                    } else {
                        assert(rgba@[k] == before[k]);
                        if xx == x {
                            assert(yy != top && yy != bottom) by {
                                if yy == top {
                                    assert(k == i + c);
                                } else if yy == bottom {
                                    assert(k == j + c);
                                }
                            }
                        }
                    }
                }
            }
            x = x + 1;
        }
        top = top + 1;
        bottom = bottom - 1;
    }
    proof {
        assert forall|x: int, yy: int, c: int|
            0 <= x < wi && 0 <= yy < hi && 0 <= c < 4 implies #[trigger] rgba@[pix(wi, x, yy, c)]
                == img[pix(wi, x, hi - 1 - yy, c)] by {
            if top <= yy <= bottom {
                assert(hi - 1 - yy == yy);
            }
        }
        let target = flip_v(img, wi, hi);
        assert forall|k: int| 0 <= k < rgba@.len() implies #[trigger] rgba@[k] == target[k] by {
            if k < image_len(wi, hi) {
                lemma_split(wi, hi, k);
                let (x, yy, c) = (col_of(wi, k), row_of(wi, k), chan_of(k));
                assert(rgba@[pix(wi, x, yy, c)] == img[pix(wi, x, hi - 1 - yy, c)]);
            }
        }
        assert(rgba@ =~= target);
    }
}

/// Mirrors the `width` by `height` RGBA image at the start of `rgba` in place
/// as `config` asks; the bytes after the image stay.
pub fn mirror_image(width: usize, height: usize, rgba: &mut Vec<u8>, config: ImageConfig)
    requires
        config.horizontal || config.vertical ==> image_len(width as int, height as int) <= old(
            rgba,
        ).len(),
        !mirror_panics(width as int, height as int, config),
    ensures
        final(rgba)@ == mirrored(old(rgba)@, width as int, height as int, config),
{
    if config.horizontal {
        flip_rows(rgba, width, height);
    }
    if config.vertical {
        flip_row_order(rgba, width, height);
    }
}


/// The mirror filter as a plugin runs it on a `width` by `height` image whose
/// parameters were read into `config`, or could not be read (`None`):
/// unreadable parameters answer `STATUS_BAD_PARAMS`, dimensions on which the
/// mirror cannot run answer `STATUS_FAILED`, both leaving the image as it is;
/// otherwise the image is mirrored and the answer is `STATUS_OK`.
pub fn process_image(width: u32, height: u32, rgba: &mut Vec<u8>, config: Option<ImageConfig>) -> (code:
    i32)
    requires
        config matches Some(c) && (c.horizontal || c.vertical) ==> image_len(
            width as int,
            height as int,
        ) <= old(rgba).len(),
    ensures
        (match config {
            None => code == STATUS_BAD_PARAMS && final(rgba)@ == old(rgba)@,
            Some(c) => if mirror_panics(width as int, height as int, c) {
                code == STATUS_FAILED && final(rgba)@ == old(rgba)@
            } else {
                code == STATUS_OK && final(rgba)@ == mirrored(
                    old(rgba)@,
                    width as int,
                    height as int,
                    c,
                )
            },
        }),
{
    match config {
        None => STATUS_BAD_PARAMS,
        Some(c) => {
            if (c.horizontal && width == 0) || (c.vertical && (width == 0 || height == 0)) {
                STATUS_FAILED
            } else {
                mirror_image(width as usize, height as usize, rgba, c);
                STATUS_OK
            }
        },
    }
}


/// Law: reversing the rows in themselves twice gives back the buffer.
pub proof fn lemma_flip_h_twice(img: Seq<u8>, w: int, h: int)
    requires
        0 <= w,
        0 <= h,
        image_len(w, h) <= img.len(),
    ensures
        flip_h(flip_h(img, w, h), w, h) == img,
{
    let once = flip_h(img, w, h);
    let twice = flip_h(once, w, h);
    assert forall|k: int| 0 <= k < img.len() implies #[trigger] twice[k] == img[k] by {
        if k < image_len(w, h) {
            lemma_image_dims(w, h, k);
            lemma_split(w, h, k);
            let (x, y, c) = (col_of(w, k), row_of(w, k), chan_of(k));
            lemma_join(w, h, w - 1 - x, y, c);
        }
    }
    assert(twice =~= img);
}

/// Law: reversing the order of the rows twice gives back the buffer.
pub proof fn lemma_flip_v_twice(img: Seq<u8>, w: int, h: int)
    requires
        0 <= w,
        0 <= h,
        image_len(w, h) <= img.len(),
    ensures
        flip_v(flip_v(img, w, h), w, h) == img,
{
    let once = flip_v(img, w, h);
    let twice = flip_v(once, w, h);
    assert forall|k: int| 0 <= k < img.len() implies #[trigger] twice[k] == img[k] by {
        if k < image_len(w, h) {
            lemma_image_dims(w, h, k);
            lemma_split(w, h, k);
            let (x, y, c) = (col_of(w, k), row_of(w, k), chan_of(k));
            lemma_join(w, h, x, h - 1 - y, c);
        }
    }
    assert(twice =~= img);
}

/// Law: the two mirrors commute; reversing the rows in themselves and
/// reversing their order give the same buffer in either order.
pub proof fn lemma_flips_commute(img: Seq<u8>, w: int, h: int)
    requires
        0 <= w,
        0 <= h,
        image_len(w, h) <= img.len(),
    ensures
        flip_v(flip_h(img, w, h), w, h) == flip_h(flip_v(img, w, h), w, h),
{
    let hv = flip_v(flip_h(img, w, h), w, h);
    let vh = flip_h(flip_v(img, w, h), w, h);
    assert forall|k: int| 0 <= k < img.len() implies #[trigger] hv[k] == vh[k] by {
        if k < image_len(w, h) {
            lemma_image_dims(w, h, k);
            lemma_split(w, h, k);
            let (x, y, c) = (col_of(w, k), row_of(w, k), chan_of(k));
            lemma_join(w, h, x, h - 1 - y, c);
            lemma_join(w, h, w - 1 - x, y, c);
        }
    }
    assert(hv =~= vh);
}

/// Law: mirroring twice with the same parameters gives back the buffer.
pub proof fn lemma_mirror_twice(img: Seq<u8>, w: int, h: int, config: ImageConfig)
    requires
        0 <= w,
        0 <= h,
        image_len(w, h) <= img.len(),
    ensures
        mirrored(mirrored(img, w, h, config), w, h, config) == img,
{
    lemma_flip_h_twice(img, w, h);
    lemma_flip_v_twice(img, w, h);
    lemma_flips_commute(img, w, h);
    let fh = flip_h(img, w, h);
    let fv = flip_v(img, w, h);
    lemma_flip_v_twice(fh, w, h);
    lemma_flip_h_twice(fv, w, h);
    if config.horizontal && config.vertical {
        let once = flip_v(fh, w, h);
        // flip_h(once) == flip_h(flip_h(fv)) == fv, then flip_v(fv) == img
        assert(flip_h(once, w, h) == fv);
    }
}

} // verus!
