//! Whole-buffer transformations: the shifted extremizing pass that builds
//! the pyramid, the border repair, and the per-pixel combination stages.

use vstd::prelude::*;
use crate::buffer::{GrayscaleBuffer, grid, lemma_grid_index, lemma_index_bound};
use crate::pixelops::{
    brighter, darker, equalize, spec_brighter, spec_darker, spec_equalize, spec_sat_sub,
};

verus! {

/// The tagged choice of extremizing comparator, keeping the hot loop
/// monomorphic.
#[derive(Clone, Copy)]
pub enum Extreme {
    Darker,
    Brighter,
}

pub open spec fn spec_extreme(e: Extreme, a: u8, b: u8) -> u8 {
    match e {
        Extreme::Darker => spec_darker(a, b),
        Extreme::Brighter => spec_brighter(a, b),
    }
}

pub fn extreme_of(e: Extreme, a: u8, b: u8) -> (r: u8)
    ensures
        r == spec_extreme(e, a, b),
{
    match e {
        Extreme::Darker => darker(a, b),
        Extreme::Brighter => brighter(a, b),
    }
}

/// One shifted pass at pixel level: pixels farther than `(dx, dy)` from the
/// trailing edges combine with their shifted neighbor; the rest stay.
pub open spec fn pass_pix(
    s: Seq<u8>,
    w: int,
    h: int,
    dx: int,
    dy: int,
    e: Extreme,
    x: int,
    y: int,
) -> u8 {
    if x < w - dx && y < h - dy {
        spec_extreme(e, s[y * w + x], s[(y + dy) * w + (x + dx)])
    } else {
        s[y * w + x]
    }
}

/// One shifted extremizing pass over the whole buffer.
pub open spec fn extreme_pass(s: Seq<u8>, w: int, h: int, dx: int, dy: int, e: Extreme) -> Seq<
    u8,
> {
    grid(w, h, |x: int, y: int| pass_pix(s, w, h, dx, dy, e, x, y))
}

/// One pyramid round: a horizontal pass at `distance`, then a vertical one.
pub open spec fn round_spec(s: Seq<u8>, w: int, h: int, d: int, e: Extreme) -> Seq<u8> {
    extreme_pass(extreme_pass(s, w, h, d, 0, e), w, h, 0, d, e)
}

/// Replace pixel `(x, y)` with `extreme(pixel(x, y), pixel(x + dx, y + dy))`
/// wherever the shifted neighbor exists; every round reads only the values
/// the buffer held when the pass began.
#[verifier::loop_isolation(false)]
pub fn shift_and_apply2(img: &mut GrayscaleBuffer, dx: usize, dy: usize, e: Extreme)
    requires
        old(img).wf(),
        dx <= old(img).width,
        dy <= old(img).height,
    ensures
        final(img).wf(),
        final(img).width == old(img).width,
        final(img).height == old(img).height,
        final(img).data@ == extreme_pass(
            old(img).data@,
            old(img).width as int,
            old(img).height as int,
            dx as int,
            dy as int,
            e,
        ),
{
    let w = img.width;
    let h = img.height;
    let ghost orig: Seq<u8> = img.data@;
    let ghost target: Seq<u8> = extreme_pass(orig, w as int, h as int, dx as int, dy as int, e);
    let mut out: Vec<u8> = Vec::new();
    let mut y: usize = 0;
    while y < h
        invariant
            y <= h,
            img.data@ == orig,
            out@.len() == y * w,
            forall|j: int| 0 <= j < out@.len() ==> out@[j] == target[j],
        decreases h - y,
    {
        let mut x: usize = 0;
        while x < w
            invariant
                x <= w,
                y < h,
                img.data@ == orig,
                out@.len() == y * w + x,
                forall|j: int| 0 <= j < out@.len() ==> out@[j] == target[j],
            decreases w - x,
        {
            proof {
                lemma_grid_index(
                    w as int,
                    h as int,
                    |px: int, py: int|
                        pass_pix(orig, w as int, h as int, dx as int, dy as int, e, px, py),
                    x as int,
                    y as int,
                );
            }
            let v: u8 = if x < w - dx && y < h - dy {
                let a = img.get(x, y);
                let b = img.get(x + dx, y + dy);
                extreme_of(e, a, b)
            } else {
                img.get(x, y)
            };
            out.push(v);
            x = x + 1;
        }
        y = y + 1;
        proof {
            assert(out@.len() == (y - 1) * w + w);
            assert((y - 1) * w + w == y * w) by (nonlinear_arith);
        }
    }
    proof {
        assert(0 <= (w as int) * (h as int) && (h as int) * (w as int) == (w as int) * (
        h as int)) by (nonlinear_arith);
        assert(out@ =~= target);
    }
    img.data = out;
}

/// One full pyramid round: extremize against the neighbor `distance` to the
/// right, then against the neighbor `distance` below.
pub fn replace_with_surrounding_extreme(img: &mut GrayscaleBuffer, distance: usize, e: Extreme)
    requires
        old(img).wf(),
        distance <= old(img).width,
        distance <= old(img).height,
    ensures
        final(img).wf(),
        final(img).width == old(img).width,
        final(img).height == old(img).height,
        final(img).data@ == round_spec(
            old(img).data@,
            old(img).width as int,
            old(img).height as int,
            distance as int,
            e,
        ),
{
    shift_and_apply2(img, distance, 0, e);
    shift_and_apply2(img, 0, distance, e);
}

/// Pointwise saturating difference of two equally sized sample sequences.
pub open spec fn diff_map(a: Seq<u8>, b: Seq<u8>) -> Seq<u8> {
    Seq::new(a.len(), |i: int| spec_sat_sub(a[i], b[i]))
}

/// `img1 := img1 - img2`, saturating at zero pixel by pixel.
#[verifier::loop_isolation(false)]
pub fn subtract(img1: &mut GrayscaleBuffer, img2: &GrayscaleBuffer)
    requires
        old(img1).wf(),
        img2.wf(),
        old(img1).width == img2.width,
        old(img1).height == img2.height,
    ensures
        final(img1).wf(),
        final(img1).width == old(img1).width,
        final(img1).height == old(img1).height,
        final(img1).data@ == diff_map(old(img1).data@, img2.data@),
{
    let ghost orig: Seq<u8> = img1.data@;
    let n: usize = img1.data.len();
    let mut out: Vec<u8> = Vec::new();
    let mut i: usize = 0;
    while i < n
        invariant
            i <= n,
            img1.data@ == orig,
            n == img2.data@.len(),
            out@.len() == i,
            forall|j: int| 0 <= j < i ==> out@[j] == diff_map(orig, img2.data@)[j],
        decreases n - i,
    {
        let a = img1.data[i];
        let b = img2.data[i];
        let v: u8 = if a >= b {
            a - b
        } else {
            0
        };
        out.push(v);
        i = i + 1;
    }
    proof {
        assert(out@ =~= diff_map(orig, img2.data@));
    }
    img1.data = out;
}

/// Pointwise affine stretch of `v` over the local interval
/// `[black, black + range]`.
pub open spec fn equalize_map(v: Seq<u8>, black: Seq<u8>, range: Seq<u8>) -> Seq<u8> {
    Seq::new(v.len(), |i: int| spec_equalize(v[i], black[i], range[i]))
}

/// Flatten illumination: stretch every pixel over its local black point and
/// local range.
#[verifier::loop_isolation(false)]
pub fn local_equalize(img: &mut GrayscaleBuffer, black: &GrayscaleBuffer, range: &GrayscaleBuffer)
    requires
        old(img).wf(),
        black.wf(),
        range.wf(),
        old(img).width == black.width && old(img).height == black.height,
        old(img).width == range.width && old(img).height == range.height,
    ensures
        final(img).wf(),
        final(img).width == old(img).width,
        final(img).height == old(img).height,
        final(img).data@ == equalize_map(old(img).data@, black.data@, range.data@),
{
    let ghost orig: Seq<u8> = img.data@;
    let n: usize = img.data.len();
    let mut out: Vec<u8> = Vec::new();
    let mut i: usize = 0;
    while i < n
        invariant
            i <= n,
            img.data@ == orig,
            n == black.data@.len(),
            n == range.data@.len(),
            out@.len() == i,
            forall|j: int| 0 <= j < i ==> out@[j] == equalize_map(orig, black.data@, range.data@)[j],
        decreases n - i,
    {
        let v = equalize(img.data[i], black.data[i], range.data[i]);
        out.push(v);
        i = i + 1;
    }
    proof {
        assert(out@ =~= equalize_map(orig, black.data@, range.data@));
    }
    img.data = out;
}

pub open spec fn clamp(v: int, lo: int, hi: int) -> int {
    if v < lo {
        lo
    } else if v > hi {
        hi
    } else {
        v
    }
}

/// The border repair at pixel level: the trustworthy interior, shifted to
/// stay centered, with its outermost valid row and column replicated
/// outward over the border band.
pub open spec fn center_stretch(s: Seq<u8>, w: int, h: int, b: int) -> Seq<u8> {
    grid(
        w,
        h,
        |x: int, y: int| s[(clamp(y, b, h - 1 - b) - b) * w + (clamp(x, b, w - 1 - b) - b)],
    )
}

/// Center the reliable interior rectangle and edge-replicate it outward to
/// fill the band of width `border` the pyramid left unreliable.
#[verifier::loop_isolation(false)]
pub fn center_and_stretch(img: &mut GrayscaleBuffer, border: usize)
    requires
        old(img).wf(),
        2 * border < old(img).width,
        2 * border < old(img).height,
    ensures
        final(img).wf(),
        final(img).width == old(img).width,
        final(img).height == old(img).height,
        final(img).data@ == center_stretch(
            old(img).data@,
            old(img).width as int,
            old(img).height as int,
            border as int,
        ),
{
    let w = img.width;
    let h = img.height;
    let ghost orig: Seq<u8> = img.data@;
    let ghost target: Seq<u8> = center_stretch(orig, w as int, h as int, border as int);
    let mut out: Vec<u8> = Vec::new();
    let mut y: usize = 0;
    while y < h
        invariant
            y <= h,
            img.data@ == orig,
            out@.len() == y * w,
            forall|j: int| 0 <= j < out@.len() ==> out@[j] == target[j],
        decreases h - y,
    {
        let sy: usize = if y < border {
            0
        } else if y > h - 1 - border {
            h - 1 - 2 * border
        } else {
            y - border
        };
        let mut x: usize = 0;
        while x < w
            invariant
                x <= w,
                y < h,
                img.data@ == orig,
                sy == clamp(y as int, border as int, h - 1 - border) - border,
                0 <= sy < h,
                out@.len() == y * w + x,
                forall|j: int| 0 <= j < out@.len() ==> out@[j] == target[j],
            decreases w - x,
        {
            let sx: usize = if x < border {
                0
            } else if x > w - 1 - border {
                w - 1 - 2 * border
            } else {
                x - border
            };
            proof {
                lemma_grid_index(
                    w as int,
                    h as int,
                    |px: int, py: int|
                        orig[(clamp(py, border as int, h - 1 - border) - border) * w + (clamp(
                            px,
                            border as int,
                            w - 1 - border,
                        ) - border)],
                    x as int,
                    y as int,
                );
            }
            let v = img.get(sx, sy);
            out.push(v);
            x = x + 1;
        }
        y = y + 1;
        proof {
            assert((y - 1) * w + w == y * w) by (nonlinear_arith);
        }
    }
    proof {
        assert(0 <= (w as int) * (h as int) && (h as int) * (w as int) == (w as int) * (
        h as int)) by (nonlinear_arith);
        assert(out@ =~= target);
    }
    img.data = out;
}

/// After a darkest-comparator pass no pixel brightens, and after a
/// brightest-comparator pass no pixel darkens.
pub proof fn lemma_pass_extreme_monotone(s: Seq<u8>, w: int, h: int, dx: int, dy: int, e: Extreme)
    requires
        s.len() == w * h,
        0 <= dx,
        0 <= dy,
    ensures
        forall|x: int, y: int|
            0 <= x < w && 0 <= y < h ==> {
                let r = #[trigger] extreme_pass(s, w, h, dx, dy, e)[y * w + x];
                match e {
                    Extreme::Darker => r <= s[y * w + x],
                    Extreme::Brighter => r >= s[y * w + x],
                }
            },
{
    assert forall|x: int, y: int| 0 <= x < w && 0 <= y < h implies {
        let r = #[trigger] extreme_pass(s, w, h, dx, dy, e)[y * w + x];
        match e {
            Extreme::Darker => r <= s[y * w + x],
            Extreme::Brighter => r >= s[y * w + x],
        }
    } by {
        lemma_grid_index(
            w,
            h,
            |px: int, py: int| pass_pix(s, w, h, dx, dy, e, px, py),
            x,
            y,
        );
    }
}

/// A full minimum round never increases a pixel, and a full maximum round
/// never decreases one.
pub proof fn lemma_round_extreme_monotone(s: Seq<u8>, w: int, h: int, d: int, e: Extreme)
    requires
        s.len() == w * h,
        0 <= d,
    ensures
        round_spec(s, w, h, d, e).len() == s.len(),
        forall|x: int, y: int|
            0 <= x < w && 0 <= y < h ==> {
                let r = #[trigger] round_spec(s, w, h, d, e)[y * w + x];
                match e {
                    Extreme::Darker => r <= s[y * w + x],
                    Extreme::Brighter => r >= s[y * w + x],
                }
            },
{
    let mid = extreme_pass(s, w, h, d, 0, e);
    assert(mid.len() == w * h);
    lemma_pass_extreme_monotone(s, w, h, d, 0, e);
    lemma_pass_extreme_monotone(mid, w, h, 0, d, e);
}

/// The range map is the saturating difference, always within the intensity
/// interval: `0 <= local_white - local_black <= 255`, with the exact
/// difference wherever the white estimate dominates.
pub proof fn lemma_range_map_invariant(white: Seq<u8>, black: Seq<u8>)
    requires
        white.len() == black.len(),
    ensures
        diff_map(white, black).len() == white.len(),
        forall|i: int|
            0 <= i < white.len() ==> 0 <= #[trigger] diff_map(white, black)[i] <= 255,
        forall|i: int|
            0 <= i < white.len() && black[i] <= white[i] ==> diff_map(white, black)[i] == white[i]
                - black[i],
        forall|i: int|
            0 <= i < white.len() && black[i] > white[i] ==> diff_map(white, black)[i] == 0,
{
}

/// Every sample the local stretch emits lies within the intensity interval.
pub proof fn lemma_equalize_map_bounded(v: Seq<u8>, black: Seq<u8>, range: Seq<u8>)
    ensures
        forall|i: int|
            0 <= i < v.len() ==> 0 <= #[trigger] equalize_map(v, black, range)[i] <= 255,
{
}

/// A uniform buffer is a fixed point of any extremizing round: comparing a
/// constant with itself changes nothing.
pub proof fn lemma_round_uniform_fixed(s: Seq<u8>, w: int, h: int, d: int, e: Extreme, c: u8)
    requires
        s.len() == w * h,
        0 < w,
        0 < h,
        0 <= d,
        forall|i: int| 0 <= i < s.len() ==> s[i] == c,
    ensures
        round_spec(s, w, h, d, e) =~= s,
{
    let mid = extreme_pass(s, w, h, d, 0, e);
    assert forall|i: int| 0 <= i < mid.len() implies mid[i] == s[i] by {
        lemma_pass_uniform_pointwise(s, w, h, d, 0, e, c, i);
    }
    assert(mid =~= s);
    let fin = extreme_pass(mid, w, h, 0, d, e);
    assert forall|i: int| 0 <= i < fin.len() implies fin[i] == mid[i] by {
        lemma_pass_uniform_pointwise(mid, w, h, 0, d, e, c, i);
    }
}

proof fn lemma_pass_uniform_pointwise(
    s: Seq<u8>,
    w: int,
    h: int,
    dx: int,
    dy: int,
    e: Extreme,
    c: u8,
    i: int,
)
    requires
        s.len() == w * h,
        0 < w,
        0 < h,
        0 <= dx,
        0 <= dy,
        forall|j: int| 0 <= j < s.len() ==> s[j] == c,
        0 <= i < (w * h) as nat,
    ensures
        extreme_pass(s, w, h, dx, dy, e)[i] == s[i],
{
    let x = i % w;
    let y = i / w;
    vstd::arithmetic::div_mod::lemma_fundamental_div_mod(i, w);
    vstd::arithmetic::div_mod::lemma_mod_bound(i, w);
    assert(0 <= y < h) by (nonlinear_arith)
        requires
            0 < w,
            i == w * y + x,
            0 <= x < w,
            0 <= i < w * h,
    ;
    lemma_grid_index(w, h, |px: int, py: int| pass_pix(s, w, h, dx, dy, e, px, py), x, y);
    assert(i == y * w + x) by (nonlinear_arith)
        requires
            i == w * y + x,
    ;
    if x < w - dx && y < h - dy {
        lemma_index_bound(x + dx, y + dy, w, h);
    }
}

} // verus!
