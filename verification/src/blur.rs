//! Box blur of an RGBA image.
//!
//! One round of the blur is a horizontal box pass followed by a vertical box
//! pass, each taking, per pixel and channel, the floor of the mean of the
//! pixels within `radius` along the row (or column), clipped to the image.
//! The blur runs `iterations` rounds, each on the image that the round before
//! left: the horizontal pass writes into a working buffer and the vertical
//! pass writes from it back into the image.

use vstd::prelude::*;

use crate::plugin::{STATUS_BAD_PARAMS, STATUS_FAILED, STATUS_OK};
use crate::raster::{chan_of, col_of, image_len, lemma_join, lemma_split, pix, row_of};

verus! {

/// Parameters of the blur.
#[derive(Clone, Copy, Debug, PartialEq, Eq)]
pub struct ImageConfig {
    /// Half the width of the averaging window, in pixels.
    pub radius: u32,
    /// Number of rounds.
    pub iterations: u32,
}

impl Default for ImageConfig {
    fn default() -> (res: Self)
        ensures
            res.radius == 0,
            res.iterations == 0,
    {
        ImageConfig { radius: 0, iterations: 0 }
    }
}

/// A running sum of a window no longer fits in 32 bits.
#[derive(Clone, Copy, Debug, PartialEq, Eq)]
pub enum BlurError {
    Overflow,
}

/// Channel `c` of pixel `(x, y)`.
pub open spec fn at(img: Seq<u8>, w: int, x: int, y: int, c: int) -> int {
    img[pix(w, x, y, c)] as int
}

/// Sample `t` of the line through `(x, y)`: along the row when `horiz`,
/// along the column otherwise.
pub open spec fn sample(img: Seq<u8>, w: int, horiz: bool, x: int, y: int, c: int, t: int) -> int {
    if horiz {
        at(img, w, t, y, c)
    } else {
        at(img, w, x, t, c)
    }
}

/// Sum of the samples `a..b` of the line through `(x, y)`.
pub open spec fn line_sum(
    img: Seq<u8>,
    w: int,
    horiz: bool,
    x: int,
    y: int,
    c: int,
    a: int,
    b: int,
) -> int
    decreases b - a,
{
    if b <= a {
        0
    } else {
        line_sum(img, w, horiz, x, y, c, a, b - 1) + sample(img, w, horiz, x, y, c, b - 1)
    }
}

/// Position of `(x, y)` along the axis of the pass.
pub open spec fn axis_pos(horiz: bool, x: int, y: int) -> int {
    if horiz {
        x
    } else {
        y
    }
}

/// Length of the axis of the pass.
pub open spec fn axis_len(horiz: bool, w: int, h: int) -> int {
    if horiz {
        w
    } else {
        h
    }
}

/// First position of the window around `(x, y)`.
pub open spec fn win_lo(horiz: bool, x: int, y: int, r: int) -> int {
    let pos = axis_pos(horiz, x, y);
    if pos <= r {
        0
    } else {
        pos - r
    }
}

/// One past the last position of the window around `(x, y)`.
pub open spec fn win_hi(horiz: bool, w: int, h: int, x: int, y: int, r: int) -> int {
    let pos = axis_pos(horiz, x, y);
    let n = axis_len(horiz, w, h);
    if pos + r + 1 <= n {
        pos + r + 1
    } else {
        n
    }
}

/// Sum of channel `c` over the window around `(x, y)`.
pub open spec fn window_sum(
    img: Seq<u8>,
    w: int,
    h: int,
    r: int,
    horiz: bool,
    x: int,
    y: int,
    c: int,
) -> int {
    line_sum(img, w, horiz, x, y, c, win_lo(horiz, x, y, r), win_hi(horiz, w, h, x, y, r))
}

/// Floor of the mean of channel `c` over the window around `(x, y)`.
pub open spec fn window_mean(
    img: Seq<u8>,
    w: int,
    h: int,
    r: int,
    horiz: bool,
    x: int,
    y: int,
    c: int,
) -> int {
    window_sum(img, w, h, r, horiz, x, y, c) / (win_hi(horiz, w, h, x, y, r) - win_lo(
        horiz,
        x,
        y,
        r,
    ))
}

/// The window around `(x, y)` has more pixels than, or a channel sum larger
/// than, a `u32` holds.
pub open spec fn window_overflows(
    img: Seq<u8>,
    w: int,
    h: int,
    r: int,
    horiz: bool,
    x: int,
    y: int,
) -> bool {
    ||| win_hi(horiz, w, h, x, y, r) - win_lo(horiz, x, y, r) > u32::MAX
    ||| window_sum(img, w, h, r, horiz, x, y, 0) > u32::MAX
    ||| window_sum(img, w, h, r, horiz, x, y, 1) > u32::MAX
    ||| window_sum(img, w, h, r, horiz, x, y, 2) > u32::MAX
    ||| window_sum(img, w, h, r, horiz, x, y, 3) > u32::MAX
}

/// Some window of the pass overflows.
pub open spec fn pass_overflows(img: Seq<u8>, w: int, h: int, r: int, horiz: bool) -> bool {
    exists|x: int, y: int|
        0 <= x < w && 0 <= y < h && #[trigger] window_overflows(img, w, h, r, horiz, x, y)
}

/// The image that one box pass makes of `img`.
pub open spec fn box_pass(img: Seq<u8>, w: int, h: int, r: int, horiz: bool) -> Seq<u8> {
    Seq::new(
        image_len(w, h) as nat,
        |k: int| window_mean(img, w, h, r, horiz, col_of(w, k), row_of(w, k), chan_of(k)) as u8,
    )
}

/// One round of the blur: the horizontal pass, then the vertical pass.
pub open spec fn round(img: Seq<u8>, w: int, h: int, r: int) -> Seq<u8> {
    box_pass(box_pass(img, w, h, r, true), w, h, r, false)
}

/// The image part of `img` after `k` rounds.
pub open spec fn rounds(img: Seq<u8>, w: int, h: int, r: int, k: nat) -> Seq<u8>
    decreases k,
{
    if k == 0 {
        img.subrange(0, image_len(w, h))
    } else {
        round(rounds(img, w, h, r, (k - 1) as nat), w, h, r)
    }
}

/// Round `j` (counted from 1) overflows, in its horizontal or its vertical pass.
pub open spec fn round_overflows(img: Seq<u8>, w: int, h: int, r: int, j: nat) -> bool {
    let before = rounds(img, w, h, r, (j - 1) as nat);
    ||| pass_overflows(before, w, h, r, true)
    ||| pass_overflows(box_pass(before, w, h, r, true), w, h, r, false)
}

/// The blur leaves the buffer as it is.
pub open spec fn is_noop(w: int, h: int, config: ImageConfig) -> bool {
    w == 0 || h == 0 || config.radius == 0 || config.iterations == 0
}

/// The blur stops because a window overflows.
pub open spec fn blur_fails(img: Seq<u8>, w: int, h: int, config: ImageConfig) -> bool {
    &&& !is_noop(w, h, config)
    &&& exists|j: nat| 1 <= j <= config.iterations && #[trigger] round_overflows(img, w, h, config.radius as int, j)
}

/// The buffer after a blur that does not fail.
pub open spec fn blurred(img: Seq<u8>, w: int, h: int, config: ImageConfig) -> Seq<u8> {
    if is_noop(w, h, config) {
        img
    } else {
        rounds(img, w, h, config.radius as int, config.iterations as nat) + img.subrange(
            image_len(w, h),
            img.len() as int,
        )
    }
}

/// A line sum grows with its end.
pub proof fn lemma_line_sum_monotone(
    img: Seq<u8>,
    w: int,
    horiz: bool,
    x: int,
    y: int,
    c: int,
    a: int,
    b: int,
    e: int,
)
    requires
        b <= e,
    ensures
        line_sum(img, w, horiz, x, y, c, a, b) <= line_sum(img, w, horiz, x, y, c, a, e),
    decreases e - b,
{
    if b < e {
        lemma_line_sum_monotone(img, w, horiz, x, y, c, a, b, e - 1);
    }
}


/// Floors of the means of the four channels over the window around `(x, y)`,
/// or `None` where that window overflows.
fn window_means(
    src: &Vec<u8>,
    w: usize,
    h: usize,
    r: u32,
    horiz: bool,
    x: usize,
    y: usize,
) -> (res: Option<(u8, u8, u8, u8)>)
    requires
        0 <= x < w,
        0 <= y < h,
        image_len(w as int, h as int) <= src.len(),
    ensures
        ({
            let img = src@.subrange(0, image_len(w as int, h as int));
            &&& res is None <==> window_overflows(img, w as int, h as int, r as int, horiz, x as int, y as int)
            &&& res matches Some(m) ==> {
                &&& m.0 == window_mean(img, w as int, h as int, r as int, horiz, x as int, y as int, 0) as u8
                &&& m.1 == window_mean(img, w as int, h as int, r as int, horiz, x as int, y as int, 1) as u8
                &&& m.2 == window_mean(img, w as int, h as int, r as int, horiz, x as int, y as int, 2) as u8
                &&& m.3 == window_mean(img, w as int, h as int, r as int, horiz, x as int, y as int, 3) as u8
            }
        }),
{
    let ghost img = src@.subrange(0, image_len(w as int, h as int));
    let ghost (wi, hi_, ri, xi, yi) = (w as int, h as int, r as int, x as int, y as int);
    let rr = r as usize;
    let pos = if horiz { x } else { y };
    let n = if horiz { w } else { h };
    let lo: usize = if pos <= rr { 0 } else { pos - rr };
    let hi: usize = if rr < n - pos { pos + rr + 1 } else { n };
    assert(lo == win_lo(horiz, xi, yi, ri));
    assert(hi == win_hi(horiz, wi, hi_, xi, yi, ri));
    let count: usize = hi - lo;
    let mut s0: u32 = 0;
    let mut s1: u32 = 0;
    let mut s2: u32 = 0;
    let mut s3: u32 = 0;
    let mut t: usize = lo;
    while t < hi
        invariant
            img == src@.subrange(0, image_len(wi, hi_)),
            image_len(wi, hi_) <= src.len(),
            wi == w, hi_ == h, xi == x, yi == y, ri == r,
            0 <= x < w,
            0 <= y < h,
            n == axis_len(horiz, wi, hi_),
            lo <= t <= hi <= n,
            lo == win_lo(horiz, xi, yi, ri),
            hi == win_hi(horiz, wi, hi_, xi, yi, ri),
            s0 == line_sum(img, wi, horiz, xi, yi, 0, lo as int, t as int),
            s1 == line_sum(img, wi, horiz, xi, yi, 1, lo as int, t as int),
            s2 == line_sum(img, wi, horiz, xi, yi, 2, lo as int, t as int),
            s3 == line_sum(img, wi, horiz, xi, yi, 3, lo as int, t as int),
        decreases hi - t,
    {
        let q: usize;
        proof {
            if horiz {
                lemma_join(wi, hi_, t as int, yi, 3);
            } else {
                lemma_join(wi, hi_, xi, t as int, 3);
            }
        }
        if horiz {
            q = y * w + t;
        } else {
            q = t * w + x;
        }
        let b: usize = 4 * q;
        let v0 = src[b] as u32;
        let v1 = src[b + 1] as u32;
        let v2 = src[b + 2] as u32;
        let v3 = src[b + 3] as u32;
        if s0 > u32::MAX - v0 || s1 > u32::MAX - v1 || s2 > u32::MAX - v2 || s3 > u32::MAX - v3 {
            proof {
                assert(line_sum(img, wi, horiz, xi, yi, 0, lo as int, t + 1) == s0 + v0);
                assert(line_sum(img, wi, horiz, xi, yi, 1, lo as int, t + 1) == s1 + v1);
                assert(line_sum(img, wi, horiz, xi, yi, 2, lo as int, t + 1) == s2 + v2);
                assert(line_sum(img, wi, horiz, xi, yi, 3, lo as int, t + 1) == s3 + v3);
                lemma_line_sum_monotone(img, wi, horiz, xi, yi, 0, lo as int, t + 1, hi as int);
                lemma_line_sum_monotone(img, wi, horiz, xi, yi, 1, lo as int, t + 1, hi as int);
                lemma_line_sum_monotone(img, wi, horiz, xi, yi, 2, lo as int, t + 1, hi as int);
                lemma_line_sum_monotone(img, wi, horiz, xi, yi, 3, lo as int, t + 1, hi as int);
            }
            assert(window_overflows(img, wi, hi_, ri, horiz, xi, yi));
            return None;
        }
        s0 = s0 + v0;
        s1 = s1 + v1;
        s2 = s2 + v2;
        s3 = s3 + v3;
        t = t + 1;
    }
    if count > u32::MAX as usize {
        return None;
    }
    let cnt = count as u32;
    Some(((s0 / cnt) as u8, (s1 / cnt) as u8, (s2 / cnt) as u8, (s3 / cnt) as u8))
}


/// Writes into the image part of `dst` the box pass of the image part of
/// `src`, pixel by pixel in row-major order; stops at the first window that
/// overflows and then answers `false`. Bytes of `dst` past the image stay.
fn box_pass_into(src: &Vec<u8>, dst: &mut Vec<u8>, w: usize, h: usize, r: u32, horiz: bool) -> (ok:
    bool)
    requires
        0 < w,
        0 < h,
        image_len(w as int, h as int) <= src.len(),
        image_len(w as int, h as int) <= old(dst).len(),
    ensures
        final(dst).len() == old(dst).len(),
        forall|k: int|
            image_len(w as int, h as int) <= k < old(dst).len() ==> #[trigger] final(dst)@[k]
                == old(dst)@[k],
        ok == !pass_overflows(
            src@.subrange(0, image_len(w as int, h as int)),
            w as int,
            h as int,
            r as int,
            horiz,
        ),
        ok ==> final(dst)@.subrange(0, image_len(w as int, h as int)) == box_pass(
            src@.subrange(0, image_len(w as int, h as int)),
            w as int,
            h as int,
            r as int,
            horiz,
        ),
{
    let ghost (wi, hi, ri) = (w as int, h as int, r as int);
    let ghost n4 = image_len(wi, hi);
    let ghost img = src@.subrange(0, n4);
    let ghost target = box_pass(img, wi, hi, ri, horiz);
    let ghost old_dst = dst@;
    let mut y: usize = 0;
    while y < h
        invariant
            wi == w, hi == h, ri == r,
            0 < w, 0 < h,
            n4 == image_len(wi, hi),
            n4 <= src.len(),
            img == src@.subrange(0, n4),
            target == box_pass(img, wi, hi, ri, horiz),
            dst.len() == old_dst.len(),
            old_dst == old(dst)@,
            n4 <= old_dst.len(),
            0 <= y <= h,
            forall|k: int| n4 <= k < old_dst.len() ==> #[trigger] dst@[k] == old_dst[k],
            forall|k: int| 0 <= k < 4 * (y * wi) ==> #[trigger] dst@[k] == target[k],
            forall|xx: int, yy: int|
                0 <= xx < wi && 0 <= yy < y ==> !#[trigger] window_overflows(img, wi, hi, ri, horiz, xx, yy),
        decreases h - y,
    {
        let mut x: usize = 0;
        while x < w
            invariant
                wi == w, hi == h, ri == r,
                0 < w, 0 < h,
                n4 == image_len(wi, hi),
                n4 <= src.len(),
                img == src@.subrange(0, n4),
                target == box_pass(img, wi, hi, ri, horiz),
                dst.len() == old_dst.len(),
                old_dst == old(dst)@,
                n4 <= old_dst.len(),
                0 <= y < h,
                0 <= x <= w,
                forall|k: int| n4 <= k < old_dst.len() ==> #[trigger] dst@[k] == old_dst[k],
                forall|k: int| 0 <= k < 4 * (y * wi + x) ==> #[trigger] dst@[k] == target[k],
                forall|xx: int, yy: int|
                    (0 <= xx < wi && 0 <= yy < y) || (0 <= xx < x && yy == y)
                        ==> !#[trigger] window_overflows(img, wi, hi, ri, horiz, xx, yy),
            decreases w - x,
        {
            let means = window_means(src, w, h, r, horiz, x, y);
            match means {
                None => {
                    assert(window_overflows(img, wi, hi, ri, horiz, x as int, y as int));
                    return false;
                },
                Some(m) => {
                    proof {
                        lemma_join(wi, hi, x as int, y as int, 0);
                        lemma_join(wi, hi, x as int, y as int, 1);
                        lemma_join(wi, hi, x as int, y as int, 2);
                        lemma_join(wi, hi, x as int, y as int, 3);
                    }
                    let p: usize = y * w + x;
                    let b: usize = 4 * p;
                    dst.set(b, m.0);
                    dst.set(b + 1, m.1);
                    dst.set(b + 2, m.2);
                    dst.set(b + 3, m.3);
                },
            }
            x = x + 1;
        }
        proof {
            assert(y * wi + wi == (y + 1) * wi) by (nonlinear_arith);
        }
        y = y + 1;
    }
    proof {
        assert(h * wi == wi * hi) by (nonlinear_arith)
            requires hi == h;
        assert(dst@.subrange(0, n4) =~= target);
    }
    true
}


/// Copies the image part of `src` into a new buffer.
fn copy_image(src: &Vec<u8>, n4: usize) -> (res: Vec<u8>)
    requires
        n4 <= src.len(),
    ensures
        res@ == src@.subrange(0, n4 as int),
{
    let mut res: Vec<u8> = Vec::new();
    let mut i: usize = 0;
    while i < n4
        invariant
            n4 <= src.len(),
            0 <= i <= n4,
            res@ == src@.subrange(0, i as int),
        decreases n4 - i,
    {
        res.push(src[i]);
        assert(res@ =~= src@.subrange(0, i + 1));
        i = i + 1;
    }
    res
}

/// Blurs the `width` by `height` RGBA image at the start of `rgba` in place.
///
/// Nothing changes where the image is empty, the radius is 0 or there are no
/// rounds. Otherwise the blur fails exactly where some window of some pass
/// it runs has more pixels than, or a channel sum larger than, a `u32` holds;
/// when it succeeds, the image part is the image after `iterations` rounds of
/// a horizontal then a vertical pass. The bytes after the image always stay.
pub fn blur_image(width: usize, height: usize, rgba: &mut Vec<u8>, config: ImageConfig) -> (res:
    Result<(), BlurError>)
    requires
        !is_noop(width as int, height as int, config) ==> image_len(width as int, height as int)
            <= old(rgba).len(),
    ensures
        final(rgba).len() == old(rgba).len(),
        forall|k: int|
            image_len(width as int, height as int) <= k < old(rgba).len() ==> #[trigger] final(rgba)@[k]
                == old(rgba)@[k],
        res is Ok <==> !blur_fails(old(rgba)@, width as int, height as int, config),
        res is Ok ==> final(rgba)@ == blurred(old(rgba)@, width as int, height as int, config),
{
    if width == 0 || height == 0 || config.radius == 0 || config.iterations == 0 {
        return Ok(());
    }
    let ghost (wi, hi, ri) = (width as int, height as int, config.radius as int);
    let ghost img = rgba@;
    let ghost n4i = image_len(wi, hi);
    let w = width;
    let h = height;
    let r = config.radius;
    let n = config.iterations;
    assert(w * h <= n4i) by (nonlinear_arith)
        requires n4i == 4 * (wi * hi), wi == w, hi == h, w > 0, h > 0;
    let n4: usize = 4 * (w * h);
    let mut working = copy_image(rgba, n4);
    let mut it: u32 = 0;
    while it < n
        invariant
            wi == w, hi == h, ri == r, w > 0, h > 0, r > 0,
            w == width, h == height,
            n == config.iterations, r == config.radius,
            n4 == n4i, n4i == image_len(wi, hi),
            img == old(rgba)@,
            n4 <= img.len(),
            0 <= it <= n,
            working.len() == n4,
            rgba.len() == img.len(),
            forall|k: int| n4 <= k < img.len() ==> #[trigger] rgba@[k] == img[k],
            rgba@.subrange(0, n4i) == rounds(img, wi, hi, ri, it as nat),
            forall|j: nat| 1 <= j <= it ==> !#[trigger] round_overflows(img, wi, hi, ri, j),
        decreases n - it,
    {
        let ghost next = (it + 1) as nat;
        let ok_h = box_pass_into(rgba, &mut working, w, h, r, true);
        if !ok_h {
            assert(round_overflows(img, wi, hi, ri, next));
            return Err(BlurError::Overflow);
        }
        assert(working@ =~= working@.subrange(0, n4i));
        let ok_v = box_pass_into(&working, rgba, w, h, r, false);
        if !ok_v {
            assert(round_overflows(img, wi, hi, ri, next));
            return Err(BlurError::Overflow);
        }
        it = it + 1;
    }
    proof {
        let out = blurred(img, wi, hi, config);
        assert(rgba@ =~= out);
    }
    Ok(())
}


/// The blur filter as a plugin runs it on a `width` by `height` image whose
/// parameters were read into `config`, or could not be read (`None`):
/// unreadable parameters leave the image as it is and answer
/// `STATUS_BAD_PARAMS`; a blur that fails answers `STATUS_FAILED`; otherwise
/// the image is blurred and the answer is `STATUS_OK`.
pub fn process_image(width: u32, height: u32, rgba: &mut Vec<u8>, config: Option<ImageConfig>) -> (code:
    i32)
    requires
        config matches Some(c) && !is_noop(width as int, height as int, c) ==> image_len(
            width as int,
            height as int,
        ) <= old(rgba).len(),
    ensures
        final(rgba).len() == old(rgba).len(),
        forall|k: int|
            image_len(width as int, height as int) <= k < old(rgba).len() ==> #[trigger] final(rgba)@[k]
                == old(rgba)@[k],
        (match config {
            None => code == STATUS_BAD_PARAMS && final(rgba)@ == old(rgba)@,
            Some(c) => if blur_fails(old(rgba)@, width as int, height as int, c) {
                code == STATUS_FAILED
            } else {
                code == STATUS_OK && final(rgba)@ == blurred(
                    old(rgba)@,
                    width as int,
                    height as int,
                    c,
                )
            },
        }),
{
    match config {
        None => STATUS_BAD_PARAMS,
        Some(c) => match blur_image(width as usize, height as usize, rgba, c) {
            Ok(()) => STATUS_OK,
            Err(_) => STATUS_FAILED,
        },
    }
}


/// Line sums of samples that agree position by position are equal.
pub proof fn lemma_line_sum_same(
    img1: Seq<u8>,
    horiz1: bool,
    x1: int,
    y1: int,
    img2: Seq<u8>,
    horiz2: bool,
    x2: int,
    y2: int,
    w: int,
    c: int,
    a: int,
    b: int,
)
    requires
        forall|t: int|
            a <= t < b ==> #[trigger] sample(img1, w, horiz1, x1, y1, c, t) == sample(
                img2,
                w,
                horiz2,
                x2,
                y2,
                c,
                t,
            ),
    ensures
        line_sum(img1, w, horiz1, x1, y1, c, a, b) == line_sum(img2, w, horiz2, x2, y2, c, a, b),
    decreases b - a,
{
    if a < b {
        lemma_line_sum_same(img1, horiz1, x1, y1, img2, horiz2, x2, y2, w, c, a, b - 1);
        assert(sample(img1, w, horiz1, x1, y1, c, b - 1) == sample(img2, w, horiz2, x2, y2, c, b - 1));
    }
}

/// Every pixel of the `w` by `h` image has channel `c` within `lo..=hi`.
pub open spec fn channel_within(img: Seq<u8>, w: int, h: int, c: int, lo: int, hi: int) -> bool {
    forall|x: int, y: int| 0 <= x < w && 0 <= y < h ==> lo <= #[trigger] at(img, w, x, y, c) <= hi
}

/// A line sum of samples that lie in `lo..=hi` lies between `lo` and `hi`
/// times the number of samples.
proof fn lemma_line_sum_bounds(
    img: Seq<u8>,
    w: int,
    h: int,
    horiz: bool,
    x: int,
    y: int,
    c: int,
    a: int,
    b: int,
    lo: int,
    hi: int,
)
    requires
        0 <= a <= b,
        horiz ==> b <= w && 0 <= y < h,
        !horiz ==> b <= h && 0 <= x < w,
        channel_within(img, w, h, c, lo, hi),
    ensures
        lo * (b - a) <= line_sum(img, w, horiz, x, y, c, a, b) <= hi * (b - a),
    decreases b - a,
{
    if a < b {
        lemma_line_sum_bounds(img, w, h, horiz, x, y, c, a, b - 1, lo, hi);
        let s = line_sum(img, w, horiz, x, y, c, a, b - 1);
        let v = sample(img, w, horiz, x, y, c, b - 1);
        if horiz {
            assert(lo <= at(img, w, b - 1, y, c) <= hi);
        } else {
            assert(lo <= at(img, w, x, b - 1, c) <= hi);
        }
        assert(lo * (b - a) <= s + v <= hi * (b - a)) by (nonlinear_arith)
            requires
                lo * (b - 1 - a) <= s <= hi * (b - 1 - a),
                lo <= v <= hi,
        ;
    } else {
        assert(lo * (b - a) == 0 && hi * (b - a) == 0) by (nonlinear_arith)
            requires b == a;
    }
}

/// The window around a pixel of the image lies inside its axis and holds
/// that pixel.
proof fn lemma_window_inside(w: int, h: int, r: int, horiz: bool, x: int, y: int)
    requires
        0 <= x < w,
        0 <= y < h,
        0 <= r,
    ensures
        0 <= win_lo(horiz, x, y, r) <= axis_pos(horiz, x, y) < win_hi(horiz, w, h, x, y, r)
            <= axis_len(horiz, w, h),
        win_hi(horiz, w, h, x, y, r) - win_lo(horiz, x, y, r) <= axis_len(horiz, w, h),
        win_hi(horiz, w, h, x, y, r) - win_lo(horiz, x, y, r) <= 2 * r + 1,
{
}

/// Each window mean of a channel within `lo..=hi` is within `lo..=hi`, and
/// within the range of a byte.
proof fn lemma_window_mean_bounds(
    img: Seq<u8>,
    w: int,
    h: int,
    r: int,
    horiz: bool,
    x: int,
    y: int,
    c: int,
    lo: int,
    hi: int,
)
    requires
        0 <= x < w,
        0 <= y < h,
        0 <= r,
        channel_within(img, w, h, c, lo, hi),
    ensures
        lo <= window_mean(img, w, h, r, horiz, x, y, c) <= hi,
        0 <= window_mean(img, w, h, r, horiz, x, y, c) <= 255,
{
    lemma_window_inside(w, h, r, horiz, x, y);
    let a = win_lo(horiz, x, y, r);
    let b = win_hi(horiz, w, h, x, y, r);
    let s = line_sum(img, w, horiz, x, y, c, a, b);
    assert(channel_within(img, w, h, c, 0, 255));
    lemma_line_sum_bounds(img, w, h, horiz, x, y, c, a, b, lo, hi);
    lemma_line_sum_bounds(img, w, h, horiz, x, y, c, a, b, 0, 255);
    let n = b - a;
    assert(lo <= s / n <= hi && 0 <= s / n <= 255) by (nonlinear_arith)
        requires
            n > 0,
            lo * n <= s <= hi * n,
            0 <= s <= 255 * n,
    {
        vstd::arithmetic::div_mod::lemma_div_is_ordered(lo * n, s, n);
        vstd::arithmetic::div_mod::lemma_div_is_ordered(s, hi * n, n);
        vstd::arithmetic::div_mod::lemma_div_is_ordered(s, 255 * n, n);
        vstd::arithmetic::div_mod::lemma_div_multiples_vanish(lo, n);
        vstd::arithmetic::div_mod::lemma_div_multiples_vanish(hi, n);
        vstd::arithmetic::div_mod::lemma_div_multiples_vanish(255, n);
    }
}

/// A box pass keeps a channel within the range that it had.
proof fn lemma_pass_within(img: Seq<u8>, w: int, h: int, r: int, horiz: bool, c: int, lo: int, hi: int)
    requires
        0 <= w,
        0 <= h,
        0 <= r,
        0 <= c < 4,
        channel_within(img, w, h, c, lo, hi),
    ensures
        channel_within(box_pass(img, w, h, r, horiz), w, h, c, lo, hi),
{
    let out = box_pass(img, w, h, r, horiz);
    assert forall|x: int, y: int| 0 <= x < w && 0 <= y < h implies lo <= #[trigger] at(out, w, x, y, c) <= hi by {
        lemma_join(w, h, x, y, c);
        lemma_window_mean_bounds(img, w, h, r, horiz, x, y, c, lo, hi);
    }
}

/// Rounds keep a channel within the range that it had.
proof fn lemma_rounds_within(img: Seq<u8>, w: int, h: int, r: int, k: nat, c: int, lo: int, hi: int)
    requires
        0 <= w,
        0 <= h,
        0 <= r,
        0 <= c < 4,
        image_len(w, h) <= img.len(),
        channel_within(img, w, h, c, lo, hi),
    ensures
        channel_within(rounds(img, w, h, r, k), w, h, c, lo, hi),
    decreases k,
{
    if k == 0 {
        let sub = img.subrange(0, image_len(w, h));
        assert forall|x: int, y: int| 0 <= x < w && 0 <= y < h implies lo <= #[trigger] at(sub, w, x, y, c) <= hi by {
            lemma_join(w, h, x, y, c);
            assert(at(img, w, x, y, c) == at(sub, w, x, y, c));
        }
    } else {
        let before = rounds(img, w, h, r, (k - 1) as nat);
        lemma_rounds_within(img, w, h, r, (k - 1) as nat, c, lo, hi);
        lemma_pass_within(before, w, h, r, true, c, lo, hi);
        lemma_pass_within(box_pass(before, w, h, r, true), w, h, r, false, c, lo, hi);
    }
}

/// Law: the blur never takes a channel of the image outside the range of
/// values that the channel had before.
pub proof fn lemma_blur_keeps_channel_range(
    img: Seq<u8>,
    w: int,
    h: int,
    config: ImageConfig,
    c: int,
    lo: int,
    hi: int,
)
    requires
        0 <= w,
        0 <= h,
        image_len(w, h) <= img.len(),
        0 <= c < 4,
        channel_within(img, w, h, c, lo, hi),
    ensures
        channel_within(blurred(img, w, h, config), w, h, c, lo, hi),
{
    if !is_noop(w, h, config) {
        let r = config.radius as int;
        let k = config.iterations as nat;
        lemma_rounds_within(img, w, h, r, k, c, lo, hi);
        let v = rounds(img, w, h, r, k);
        let out = blurred(img, w, h, config);
        assert forall|x: int, y: int| 0 <= x < w && 0 <= y < h implies lo <= #[trigger] at(out, w, x, y, c) <= hi by {
            lemma_join(w, h, x, y, c);
            assert(at(out, w, x, y, c) == at(v, w, x, y, c));
        }
    }
}

/// Law: a channel that has one value all over the image keeps it through
/// the blur (an opaque image stays opaque).
pub proof fn lemma_blur_keeps_flat_channel(img: Seq<u8>, w: int, h: int, config: ImageConfig, c: int, v: int)
    requires
        0 <= w,
        0 <= h,
        image_len(w, h) <= img.len(),
        0 <= c < 4,
        channel_within(img, w, h, c, v, v),
    ensures
        channel_within(blurred(img, w, h, config), w, h, c, v, v),
{
    lemma_blur_keeps_channel_range(img, w, h, config, c, v, v);
}

/// Law: the blur leaves an image whose pixels all have one colour as it is.
pub proof fn lemma_blur_keeps_uniform_image(img: Seq<u8>, w: int, h: int, config: ImageConfig)
    requires
        0 < w,
        0 < h,
        image_len(w, h) <= img.len(),
        forall|x: int, y: int, c: int|
            0 <= x < w && 0 <= y < h && 0 <= c < 4 ==> #[trigger] at(img, w, x, y, c) == at(img, w, 0, 0, c),
    ensures
        blurred(img, w, h, config) == img,
{
    if !is_noop(w, h, config) {
        let out = blurred(img, w, h, config);
        assert forall|c: int| 0 <= c < 4 implies channel_within(out, w, h, c, at(img, w, 0, 0, c), at(img, w, 0, 0, c)) by {
            assert forall|x: int, y: int| 0 <= x < w && 0 <= y < h implies at(img, w, 0, 0, c) <= #[trigger] at(img, w, x, y, c) <= at(img, w, 0, 0, c) by {
                assert(at(img, w, x, y, c) == at(img, w, 0, 0, c));
            }
            lemma_blur_keeps_flat_channel(img, w, h, config, c, at(img, w, 0, 0, c));
        }
        assert forall|k: int| 0 <= k < img.len() implies #[trigger] out[k] == img[k] by {
            if k < image_len(w, h) {
                lemma_split(w, h, k);
                let (x, y, c) = (col_of(w, k), row_of(w, k), chan_of(k));
                assert(channel_within(out, w, h, c, at(img, w, 0, 0, c), at(img, w, 0, 0, c)));
                assert(at(out, w, x, y, c) == at(img, w, x, y, c));
            }
        }
        assert(out =~= img);
    }
}

/// The most pixels that a window of radius `r` in a `w` by `h` image holds.
pub open spec fn longest_window(w: int, h: int, r: int) -> int {
    let side = if w < h {
        h
    } else {
        w
    };
    if 2 * r + 1 < side {
        2 * r + 1
    } else {
        side
    }
}

/// Law: no window of any pass overflows when 255 times the most pixels a
/// window holds fits in a `u32`, so the blur never fails on such an image.
pub proof fn lemma_blur_never_fails_on_small_windows(img: Seq<u8>, w: int, h: int, config: ImageConfig)
    requires
        0 <= w,
        0 <= h,
        255 * longest_window(w, h, config.radius as int) <= u32::MAX,
    ensures
        !blur_fails(img, w, h, config),
{
    let r = config.radius as int;
    assert forall|j: nat| 1 <= j <= config.iterations implies !#[trigger] round_overflows(img, w, h, r, j) by {
        let before = rounds(img, w, h, r, (j - 1) as nat);
        lemma_pass_never_overflows(before, w, h, r, true);
        lemma_pass_never_overflows(box_pass(before, w, h, r, true), w, h, r, false);
    }
}

/// No window of a pass overflows when 255 times the most pixels a window
/// holds fits in a `u32`.
proof fn lemma_pass_never_overflows(img: Seq<u8>, w: int, h: int, r: int, horiz: bool)
    requires
        0 <= w,
        0 <= h,
        0 <= r,
        255 * longest_window(w, h, r) <= u32::MAX,
    ensures
        !pass_overflows(img, w, h, r, horiz),
{
    assert forall|x: int, y: int| 0 <= x < w && 0 <= y < h implies !#[trigger] window_overflows(img, w, h, r, horiz, x, y) by {
        lemma_window_inside(w, h, r, horiz, x, y);
        let a = win_lo(horiz, x, y, r);
        let b = win_hi(horiz, w, h, x, y, r);
        let m = longest_window(w, h, r);
        assert(b - a <= m);
        assert forall|c: int| 0 <= c < 4 implies window_sum(img, w, h, r, horiz, x, y, c) <= u32::MAX by {
            assert(channel_within(img, w, h, c, 0, 255));
            lemma_line_sum_bounds(img, w, h, horiz, x, y, c, a, b, 0, 255);
            assert(255 * (b - a) <= 255 * m);
        }
        assert(window_sum(img, w, h, r, horiz, x, y, 0) <= u32::MAX);
        assert(window_sum(img, w, h, r, horiz, x, y, 1) <= u32::MAX);
        assert(window_sum(img, w, h, r, horiz, x, y, 2) <= u32::MAX);
        assert(window_sum(img, w, h, r, horiz, x, y, 3) <= u32::MAX);
    }
}


/// Channel `c` is the same in the `w` by `h` images at the start of `a` and `b`.
pub open spec fn channels_agree(a: Seq<u8>, b: Seq<u8>, w: int, h: int, c: int) -> bool {
    forall|x: int, y: int| 0 <= x < w && 0 <= y < h ==> #[trigger] at(a, w, x, y, c) == at(b, w, x, y, c)
}

/// A box pass reads channel `c` of the image alone to write channel `c`.
proof fn lemma_pass_channel(a: Seq<u8>, b: Seq<u8>, w: int, h: int, r: int, horiz: bool, c: int)
    requires
        0 <= w,
        0 <= h,
        0 <= r,
        0 <= c < 4,
        channels_agree(a, b, w, h, c),
    ensures
        channels_agree(box_pass(a, w, h, r, horiz), box_pass(b, w, h, r, horiz), w, h, c),
{
    let pa = box_pass(a, w, h, r, horiz);
    let pb = box_pass(b, w, h, r, horiz);
    assert forall|x: int, y: int| 0 <= x < w && 0 <= y < h implies #[trigger] at(pa, w, x, y, c) == at(pb, w, x, y, c) by {
        lemma_join(w, h, x, y, c);
        lemma_window_inside(w, h, r, horiz, x, y);
        let lo = win_lo(horiz, x, y, r);
        let hi = win_hi(horiz, w, h, x, y, r);
        assert forall|t: int| lo <= t < hi implies #[trigger] sample(a, w, horiz, x, y, c, t) == sample(
            b,
            w,
            horiz,
            x,
            y,
            c,
            t,
        ) by {
            if horiz {
                assert(at(a, w, t, y, c) == at(b, w, t, y, c));
            } else {
                assert(at(a, w, x, t, c) == at(b, w, x, t, c));
            }
        }
        lemma_line_sum_same(a, horiz, x, y, b, horiz, x, y, w, c, lo, hi);
    }
}

/// Rounds read channel `c` of the image alone to write channel `c`.
proof fn lemma_rounds_channel(a: Seq<u8>, b: Seq<u8>, w: int, h: int, r: int, k: nat, c: int)
    requires
        0 <= w,
        0 <= h,
        0 <= r,
        0 <= c < 4,
        image_len(w, h) <= a.len(),
        image_len(w, h) <= b.len(),
        channels_agree(a, b, w, h, c),
    ensures
        channels_agree(rounds(a, w, h, r, k), rounds(b, w, h, r, k), w, h, c),
    decreases k,
{
    if k == 0 {
        let sa = a.subrange(0, image_len(w, h));
        let sb = b.subrange(0, image_len(w, h));
        assert forall|x: int, y: int| 0 <= x < w && 0 <= y < h implies #[trigger] at(sa, w, x, y, c) == at(sb, w, x, y, c) by {
            lemma_join(w, h, x, y, c);
            assert(at(a, w, x, y, c) == at(b, w, x, y, c));
        }
    } else {
        let ra = rounds(a, w, h, r, (k - 1) as nat);
        let rb = rounds(b, w, h, r, (k - 1) as nat);
        lemma_rounds_channel(a, b, w, h, r, (k - 1) as nat, c);
        lemma_pass_channel(ra, rb, w, h, r, true, c);
        lemma_pass_channel(box_pass(ra, w, h, r, true), box_pass(rb, w, h, r, true), w, h, r, false, c);
    }
}

/// Law: each channel of the blurred image depends on the same channel of the
/// image alone; two images that agree in a channel agree in it after the blur.
pub proof fn lemma_blur_channels_are_independent(
    a: Seq<u8>,
    b: Seq<u8>,
    w: int,
    h: int,
    config: ImageConfig,
    c: int,
)
    requires
        0 <= w,
        0 <= h,
        image_len(w, h) <= a.len(),
        image_len(w, h) <= b.len(),
        0 <= c < 4,
        channels_agree(a, b, w, h, c),
    ensures
        channels_agree(blurred(a, w, h, config), blurred(b, w, h, config), w, h, c),
{
    if !is_noop(w, h, config) {
        let r = config.radius as int;
        let k = config.iterations as nat;
        lemma_rounds_channel(a, b, w, h, r, k, c);
        let (ba, bb) = (blurred(a, w, h, config), blurred(b, w, h, config));
        let (ra, rb) = (rounds(a, w, h, r, k), rounds(b, w, h, r, k));
        assert forall|x: int, y: int| 0 <= x < w && 0 <= y < h implies #[trigger] at(ba, w, x, y, c) == at(bb, w, x, y, c) by {
            lemma_join(w, h, x, y, c);
            assert(at(ba, w, x, y, c) == at(ra, w, x, y, c));
            assert(at(bb, w, x, y, c) == at(rb, w, x, y, c));
            assert(at(ra, w, x, y, c) == at(rb, w, x, y, c));
        }
    }
}

/// The image part after any number of rounds has the length of an image.
proof fn lemma_rounds_len(img: Seq<u8>, w: int, h: int, r: int, k: nat)
    requires
        0 <= w,
        0 <= h,
        image_len(w, h) <= img.len(),
    ensures
        rounds(img, w, h, r, k).len() == image_len(w, h),
    decreases k,
{
    assert(0 <= w * h) by (nonlinear_arith)
        requires 0 <= w, 0 <= h;
    if k > 0 {
        lemma_rounds_len(img, w, h, r, (k - 1) as nat);
    }
}

/// `m` rounds more after `k` rounds are `k + m` rounds.
proof fn lemma_rounds_after_rounds(img: Seq<u8>, tail: Seq<u8>, w: int, h: int, r: int, k: nat, m: nat)
    requires
        0 <= w,
        0 <= h,
        image_len(w, h) <= img.len(),
    ensures
        rounds(rounds(img, w, h, r, k) + tail, w, h, r, m) == rounds(img, w, h, r, k + m),
    decreases m,
{
    let x = rounds(img, w, h, r, k) + tail;
    lemma_rounds_len(img, w, h, r, k);
    if m == 0 {
        assert(x.subrange(0, image_len(w, h)) =~= rounds(img, w, h, r, k));
    } else {
        lemma_rounds_after_rounds(img, tail, w, h, r, k, (m - 1) as nat);
        assert((k + m - 1) as nat == k + (m - 1) as nat);
    }
}

/// Law: blurring with `first.iterations` rounds and then with
/// `second.iterations` rounds of the same radius is blurring with as many
/// rounds as both together.
pub proof fn lemma_blur_rounds_compose(
    img: Seq<u8>,
    w: int,
    h: int,
    first: ImageConfig,
    second: ImageConfig,
    both: ImageConfig,
)
    requires
        0 <= w,
        0 <= h,
        image_len(w, h) <= img.len(),
        first.radius == second.radius,
        both.radius == first.radius,
        both.iterations == first.iterations + second.iterations,
    ensures
        blurred(blurred(img, w, h, first), w, h, second) == blurred(img, w, h, both),
{
    let n4 = image_len(w, h);
    let r = first.radius as int;
    let (k, m) = (first.iterations as nat, second.iterations as nat);
    if !is_noop(w, h, first) && !is_noop(w, h, second) {
        let tail = img.subrange(n4, img.len() as int);
        let x = blurred(img, w, h, first);
        lemma_rounds_len(img, w, h, r, k);
        lemma_rounds_after_rounds(img, tail, w, h, r, k, m);
        assert(x.subrange(n4, x.len() as int) =~= tail);
        assert(k + m == both.iterations as nat);
    }
}

} // verus!
