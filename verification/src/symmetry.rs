//! The blur does not depend on the orientation of the image: mirroring and
//! blurring can be done in either order, and the blur fails on a mirrored
//! image exactly where it fails on the image.

use vstd::prelude::*;

use crate::blur::{
    at, axis_len, blur_fails, blurred, box_pass, is_noop, lemma_line_sum_same, line_sum, rounds,
    pass_overflows, round_overflows, sample, win_hi, win_lo, window_mean, window_overflows,
    window_sum, ImageConfig,
};
use crate::mirror::{flip_h, flip_v};
use crate::raster::{
    chan_of, col_of, image_len, lemma_image_dims, lemma_join, lemma_split, row_of,
};

verus! {

/// Reverses the order of the rows where `fv`, the pixels of each row otherwise.
pub open spec fn flip(img: Seq<u8>, w: int, h: int, fv: bool) -> Seq<u8> {
    if fv {
        flip_v(img, w, h)
    } else {
        flip_h(img, w, h)
    }
}

/// Column that column `x` comes from under the flip.
pub open spec fn flip_x(w: int, x: int, fv: bool) -> int {
    if fv {
        x
    } else {
        w - 1 - x
    }
}

/// Row that row `y` comes from under the flip.
pub open spec fn flip_y(h: int, y: int, fv: bool) -> int {
    if fv {
        h - 1 - y
    } else {
        y
    }
}

proof fn lemma_at_flip(img: Seq<u8>, w: int, h: int, fv: bool, x: int, y: int, c: int)
    requires
        image_len(w, h) <= img.len(),
        0 <= x < w,
        0 <= y < h,
        0 <= c < 4,
    ensures
        at(flip(img, w, h, fv), w, x, y, c) == at(img, w, flip_x(w, x, fv), flip_y(h, y, fv), c),
        0 <= flip_x(w, x, fv) < w,
        0 <= flip_y(h, y, fv) < h,
{
    lemma_join(w, h, x, y, c);
}

/// A line sum taken from the front.
proof fn lemma_line_sum_front(img: Seq<u8>, w: int, horiz: bool, x: int, y: int, c: int, a: int, b: int)
    requires
        a < b,
    ensures
        line_sum(img, w, horiz, x, y, c, a, b) == sample(img, w, horiz, x, y, c, a) + line_sum(
            img,
            w,
            horiz,
            x,
            y,
            c,
            a + 1,
            b,
        ),
    decreases b - a,
{
    if a + 1 < b {
        lemma_line_sum_front(img, w, horiz, x, y, c, a, b - 1);
    } else {
        assert(line_sum(img, w, horiz, x, y, c, a, a) == 0);
        assert(line_sum(img, w, horiz, x, y, c, a + 1, b) == 0);
    }
}

/// Line sums of samples that agree in reverse order are equal.
proof fn lemma_line_sum_reversed(
    img1: Seq<u8>,
    horiz1: bool,
    x1: int,
    y1: int,
    img2: Seq<u8>,
    horiz2: bool,
    x2: int,
    y2: int,
    w: int,
    c: int,
    m: int,
    a: int,
    b: int,
)
    requires
        forall|t: int|
            a <= t < b ==> #[trigger] sample(img1, w, horiz1, x1, y1, c, t) == sample(
                img2,
                w,
                horiz2,
                x2,
                y2,
                c,
                m - 1 - t,
            ),
    ensures
        line_sum(img1, w, horiz1, x1, y1, c, a, b) == line_sum(img2, w, horiz2, x2, y2, c, m - b, m - a),
    decreases b - a,
{
    if a < b {
        lemma_line_sum_reversed(img1, horiz1, x1, y1, img2, horiz2, x2, y2, w, c, m, a, b - 1);
        assert(sample(img1, w, horiz1, x1, y1, c, b - 1) == sample(img2, w, horiz2, x2, y2, c, m - b));
        lemma_line_sum_front(img2, w, horiz2, x2, y2, c, m - b, m - a);
    }
}

/// The window sums of a flipped image are those of the image at the pixel
/// the flip takes them from, and so are the window lengths.
proof fn lemma_window_flip(
    img: Seq<u8>,
    w: int,
    h: int,
    r: int,
    horiz: bool,
    fv: bool,
    x: int,
    y: int,
    c: int,
)
    requires
        image_len(w, h) <= img.len(),
        0 <= r,
        0 <= x < w,
        0 <= y < h,
        0 <= c < 4,
    ensures
        window_sum(flip(img, w, h, fv), w, h, r, horiz, x, y, c) == window_sum(
            img,
            w,
            h,
            r,
            horiz,
            flip_x(w, x, fv),
            flip_y(h, y, fv),
            c,
        ),
        win_hi(horiz, w, h, x, y, r) - win_lo(horiz, x, y, r) == win_hi(
            horiz,
            w,
            h,
            flip_x(w, x, fv),
            flip_y(h, y, fv),
            r,
        ) - win_lo(horiz, flip_x(w, x, fv), flip_y(h, y, fv), r),
{
    let f = flip(img, w, h, fv);
    let (fx, fy) = (flip_x(w, x, fv), flip_y(h, y, fv));
    let a = win_lo(horiz, x, y, r);
    let b = win_hi(horiz, w, h, x, y, r);
    let n = axis_len(horiz, w, h);
    assert(0 <= a <= b <= n);
    if horiz == fv {
        // The window runs across the flip: the same positions, other pixels.
        assert forall|t: int| a <= t < b implies #[trigger] sample(f, w, horiz, x, y, c, t) == sample(
            img,
            w,
            horiz,
            fx,
            fy,
            c,
            t,
        ) by {
            if horiz {
                lemma_at_flip(img, w, h, fv, t, y, c);
            } else {
                lemma_at_flip(img, w, h, fv, x, t, c);
            }
        }
        lemma_line_sum_same(f, horiz, x, y, img, horiz, fx, fy, w, c, a, b);
    } else {
        // The window runs along the flip: the mirrored window, in reverse.
        assert forall|t: int| a <= t < b implies #[trigger] sample(f, w, horiz, x, y, c, t) == sample(
            img,
            w,
            horiz,
            fx,
            fy,
            c,
            n - 1 - t,
        ) by {
            if horiz {
                lemma_at_flip(img, w, h, fv, t, y, c);
            } else {
                lemma_at_flip(img, w, h, fv, x, t, c);
            }
        }
        lemma_line_sum_reversed(f, horiz, x, y, img, horiz, fx, fy, w, c, n, a, b);
    }
}

/// A box pass of a flipped image is the flipped box pass of the image, and
/// overflows exactly where the box pass of the image does.
proof fn lemma_pass_flip(img: Seq<u8>, w: int, h: int, r: int, horiz: bool, fv: bool)
    requires
        image_len(w, h) <= img.len(),
        0 <= w,
        0 <= h,
        0 <= r,
    ensures
        box_pass(flip(img, w, h, fv), w, h, r, horiz) == flip(box_pass(img, w, h, r, horiz), w, h, fv),
        pass_overflows(flip(img, w, h, fv), w, h, r, horiz) == pass_overflows(img, w, h, r, horiz),
{
    let f = flip(img, w, h, fv);
    let lhs = box_pass(f, w, h, r, horiz);
    let p = box_pass(img, w, h, r, horiz);
    let rhs = flip(p, w, h, fv);
    assert forall|k: int| 0 <= k < lhs.len() implies #[trigger] lhs[k] == rhs[k] by {
        lemma_image_dims(w, h, k);
        lemma_split(w, h, k);
        let (x, y, c) = (col_of(w, k), row_of(w, k), chan_of(k));
        lemma_at_flip(p, w, h, fv, x, y, c);
        lemma_join(w, h, flip_x(w, x, fv), flip_y(h, y, fv), c);
        lemma_window_flip(img, w, h, r, horiz, fv, x, y, c);
        assert(window_mean(f, w, h, r, horiz, x, y, c) == window_mean(
            img,
            w,
            h,
            r,
            horiz,
            flip_x(w, x, fv),
            flip_y(h, y, fv),
            c,
        ));
    }
    assert(lhs =~= rhs);
    if pass_overflows(f, w, h, r, horiz) {
        let (x, y) = choose|x: int, y: int|
            0 <= x < w && 0 <= y < h && #[trigger] window_overflows(f, w, h, r, horiz, x, y);
        lemma_window_flip(img, w, h, r, horiz, fv, x, y, 0);
        lemma_window_flip(img, w, h, r, horiz, fv, x, y, 1);
        lemma_window_flip(img, w, h, r, horiz, fv, x, y, 2);
        lemma_window_flip(img, w, h, r, horiz, fv, x, y, 3);
        assert(window_overflows(img, w, h, r, horiz, flip_x(w, x, fv), flip_y(h, y, fv)));
    }
    if pass_overflows(img, w, h, r, horiz) {
        let (x0, y0) = choose|x: int, y: int|
            0 <= x < w && 0 <= y < h && #[trigger] window_overflows(img, w, h, r, horiz, x, y);
        // The flip takes its own image pixel back to (x0, y0).
        let (x, y) = (flip_x(w, x0, fv), flip_y(h, y0, fv));
        assert(flip_x(w, x, fv) == x0 && flip_y(h, y, fv) == y0);
        lemma_window_flip(img, w, h, r, horiz, fv, x, y, 0);
        lemma_window_flip(img, w, h, r, horiz, fv, x, y, 1);
        lemma_window_flip(img, w, h, r, horiz, fv, x, y, 2);
        lemma_window_flip(img, w, h, r, horiz, fv, x, y, 3);
        assert(window_overflows(f, w, h, r, horiz, x, y));
    }
}

/// The flip acts on the image part alone.
proof fn lemma_flip_parts(img: Seq<u8>, w: int, h: int, fv: bool)
    requires
        0 <= w,
        0 <= h,
        image_len(w, h) <= img.len(),
    ensures
        flip(img, w, h, fv).subrange(0, image_len(w, h)) == flip(
            img.subrange(0, image_len(w, h)),
            w,
            h,
            fv,
        ),
        flip(img, w, h, fv).subrange(image_len(w, h), img.len() as int) == img.subrange(
            image_len(w, h),
            img.len() as int,
        ),
{
    let n4 = image_len(w, h);
    let a = flip(img, w, h, fv).subrange(0, n4);
    let b = flip(img.subrange(0, n4), w, h, fv);
    assert forall|k: int| 0 <= k < n4 implies #[trigger] a[k] == b[k] by {
        lemma_image_dims(w, h, k);
        lemma_split(w, h, k);
        let (x, y, c) = (col_of(w, k), row_of(w, k), chan_of(k));
        lemma_join(w, h, flip_x(w, x, fv), flip_y(h, y, fv), c);
    }
    assert(a =~= b);
    assert(flip(img, w, h, fv).subrange(n4, img.len() as int) =~= img.subrange(n4, img.len() as int));
}

/// Flipping an image part followed by a tail flips the image part alone.
proof fn lemma_flip_concat(a: Seq<u8>, tail: Seq<u8>, w: int, h: int, fv: bool)
    requires
        0 <= w,
        0 <= h,
        a.len() == image_len(w, h),
    ensures
        flip(a + tail, w, h, fv) == flip(a, w, h, fv) + tail,
{
    let n4 = image_len(w, h);
    let lhs = flip(a + tail, w, h, fv);
    let rhs = flip(a, w, h, fv) + tail;
    assert forall|k: int| 0 <= k < lhs.len() implies #[trigger] lhs[k] == rhs[k] by {
        if k < n4 {
            lemma_image_dims(w, h, k);
            lemma_split(w, h, k);
            let (x, y, c) = (col_of(w, k), row_of(w, k), chan_of(k));
            lemma_join(w, h, flip_x(w, x, fv), flip_y(h, y, fv), c);
        }
    }
    assert(lhs =~= rhs);
}

/// Rounds commute with the flip.
proof fn lemma_rounds_flip(img: Seq<u8>, w: int, h: int, r: int, fv: bool, k: nat)
    requires
        0 <= w,
        0 <= h,
        0 <= r,
        image_len(w, h) <= img.len(),
    ensures
        rounds(flip(img, w, h, fv), w, h, r, k) == flip(rounds(img, w, h, r, k), w, h, fv),
        rounds(img, w, h, r, k).len() == image_len(w, h),
    decreases k,
{
    if k == 0 {
        lemma_flip_parts(img, w, h, fv);
    } else {
        let before = rounds(img, w, h, r, (k - 1) as nat);
        lemma_rounds_flip(img, w, h, r, fv, (k - 1) as nat);
        lemma_pass_flip(before, w, h, r, true, fv);
        lemma_pass_flip(box_pass(before, w, h, r, true), w, h, r, false, fv);
    }
}

/// Law: blurring a mirrored image gives the mirrored blur of the image, for
/// either mirror, and the blur fails on the mirrored image exactly where it
/// fails on the image.
pub proof fn lemma_blur_commutes_with_flip(img: Seq<u8>, w: int, h: int, config: ImageConfig, fv: bool)
    requires
        0 <= w,
        0 <= h,
        image_len(w, h) <= img.len(),
    ensures
        blurred(flip(img, w, h, fv), w, h, config) == flip(blurred(img, w, h, config), w, h, fv),
        blur_fails(flip(img, w, h, fv), w, h, config) == blur_fails(img, w, h, config),
{
    let f = flip(img, w, h, fv);
    let r = config.radius as int;
    let n = config.iterations as nat;
    let n4 = image_len(w, h);
    if !is_noop(w, h, config) {
        lemma_rounds_flip(img, w, h, r, fv, n);
        lemma_flip_parts(img, w, h, fv);
        lemma_flip_concat(rounds(img, w, h, r, n), img.subrange(n4, img.len() as int), w, h, fv);
        assert forall|j: nat| 1 <= j <= n implies #[trigger] round_overflows(f, w, h, r, j) == round_overflows(
            img,
            w,
            h,
            r,
            j,
        ) by {
            let before = rounds(img, w, h, r, (j - 1) as nat);
            lemma_rounds_flip(img, w, h, r, fv, (j - 1) as nat);
            lemma_pass_flip(before, w, h, r, true, fv);
            lemma_pass_flip(box_pass(before, w, h, r, true), w, h, r, false, fv);
        }
        if blur_fails(f, w, h, config) {
            let j = choose|j: nat| 1 <= j <= n && #[trigger] round_overflows(f, w, h, r, j);
            assert(round_overflows(img, w, h, r, j));
        }
        if blur_fails(img, w, h, config) {
            let j = choose|j: nat| 1 <= j <= n && #[trigger] round_overflows(img, w, h, r, j);
            assert(round_overflows(f, w, h, r, j));
        }
    }
}

} // verus!
