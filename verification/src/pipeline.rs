//! The orchestrator: per input image, sequences the extrema pyramids, the
//! border repair, the local range and equalization, and the histogram-driven
//! global stretch, deriving round counts from the image dimensions.

use vstd::prelude::*;
use crate::buffer::GrayscaleBuffer;
use crate::global_equalization::{
    apply_global_stretch, count_val, get_distribution, get_distribution_local_extrema,
    spec_converge, spec_derive, spec_global_stretch, spec_log_compress, MAX_PIXELS,
};
use crate::imageops::{
    center_and_stretch, center_stretch, diff_map, equalize_map, local_equalize,
    replace_with_surrounding_extreme, round_spec, subtract, Extreme,
};
use crate::math::{lemma_pow2_monotonic, lemma_pow2_positive, log_2, pow2, pow2_u32, spec_log2};

verus! {

/// Smallest width or height the pyramid supports: below this the derived
/// round counts or borders would collapse.
pub const MIN_EXTENT: usize = 16;

/// The typed failure of the core: the input cannot support at least one
/// pyramid round with the derived round counts and borders.
#[derive(Debug, PartialEq, Eq, Structural)]
pub enum PipelineError {
    DimensionTooSmall,
}

/// A diagnostic record of an intermediate buffer, labelled by pipeline
/// stage and scale. Purely observational: emission never alters the
/// corrected image.
pub enum TraceKind {
    Darkest,
    Brightest,
    DarkestStretched,
    BrightestStretched,
    ColorRange,
    CorrectedUnequalized,
}

pub struct TraceFrame {
    pub kind: TraceKind,
    pub scale: u32,
    pub image: GrayscaleBuffer,
}

/// Every recorded frame carries a well-formed buffer of the input's
/// dimensions.
pub open spec fn frames_shaped(frames: Seq<TraceFrame>, w: int, h: int) -> bool {
    forall|k: int|
        0 <= k < frames.len() ==> {
            &&& (#[trigger] frames[k]).image.wf()
            &&& frames[k].image.width == w
            &&& frames[k].image.height == h
        }
}

pub open spec fn spec_min(a: int, b: int) -> int {
    if a <= b {
        a
    } else {
        b
    }
}

/// `n` pyramid rounds with doubling offsets `1, 2, 4, ...` applied to `s`.
pub open spec fn pyramid(s: Seq<u8>, w: int, h: int, e: Extreme, n: nat) -> Seq<u8>
    decreases n,
{
    if n == 0 {
        s
    } else {
        round_spec(pyramid(s, w, h, e, (n - 1) as nat), w, h, pow2((n - 1) as nat) as int, e)
    }
}

/// Pyramid rounds `lo, lo + 1, ..., n - 1` (offsets `2^lo ... 2^(n-1)`)
/// applied to `s`.
pub open spec fn pyramid_from(s: Seq<u8>, w: int, h: int, e: Extreme, lo: nat, n: nat) -> Seq<u8>
    decreases n,
{
    if n <= lo {
        s
    } else {
        round_spec(
            pyramid_from(s, w, h, e, lo, (n - 1) as nat),
            w,
            h,
            pow2((n - 1) as nat) as int,
            e,
        )
    }
}

/// Rounds of the darkest pyramid: `floor(log2(min(w, h))) - 1`.
pub open spec fn spec_black_rounds(w: int, h: int) -> int {
    spec_log2(spec_min(w, h) as nat) - 1
}

/// Rounds of the brightest pyramid: two fewer than the darkest, biasing the
/// result against over-brightening paper background.
pub open spec fn spec_white_rounds(w: int, h: int) -> int {
    spec_log2(spec_min(w, h) as nat) - 3
}

/// The darkest-tone estimate: the full minimum pyramid, then border repair
/// with this pyramid's own border.
pub open spec fn spec_local_black(s: Seq<u8>, w: int, h: int) -> Seq<u8> {
    let br = spec_black_rounds(w, h);
    center_stretch(
        pyramid(s, w, h, Extreme::Darker, br as nat),
        w,
        h,
        pow2((br - 1) as nat) as int,
    )
}

/// The brightest-tone estimate: one shared minimum round at offset 1, then
/// maximum rounds at the doubling offsets, then border repair.
pub open spec fn spec_local_white(s: Seq<u8>, w: int, h: int) -> Seq<u8> {
    let wr = spec_white_rounds(w, h);
    center_stretch(
        pyramid_from(
            pyramid(s, w, h, Extreme::Darker, 1),
            w,
            h,
            Extreme::Brighter,
            1,
            wr as nat,
        ),
        w,
        h,
        pow2((wr - 1) as nat) as int,
    )
}

/// The locally equalized image: every pixel stretched over its local black
/// point and local range (brightest minus darkest, saturating).
pub open spec fn spec_corrected(s: Seq<u8>, w: int, h: int) -> Seq<u8> {
    let black = spec_local_black(s, w, h);
    let white = spec_local_white(s, w, h);
    equalize_map(s, black, diff_map(white, black))
}

/// The log-compressed 256-bin histogram of an image.
pub open spec fn spec_distribution(s: Seq<u8>) -> Seq<u32> {
    Seq::new(256, |v: int| spec_log_compress(count_val(s, v as u8) as int) as u32)
}

/// The global black and white points the smoothed histogram yields.
pub open spec fn spec_global_points(s: Seq<u8>) -> (u8, u8) {
    spec_derive(spec_converge(spec_distribution(s), 0).1)
}

/// The end-to-end corrected image.
pub open spec fn spec_pipeline(s: Seq<u8>, w: int, h: int) -> Seq<u8> {
    let c = spec_corrected(s, w, h);
    let pts = spec_global_points(c);
    spec_global_stretch(c, pts.0, pts.1)
}

/// Run the whole pipeline on one image. With `debug` set, intermediate
/// buffers are also recorded as diagnostic frames; the corrected image is
/// the same either way.
#[verifier::loop_isolation(false)]
pub fn process(img: &GrayscaleBuffer, debug: bool) -> (r: Result<
    (GrayscaleBuffer, Vec<TraceFrame>),
    PipelineError,
>)
    requires
        img.wf(),
        img.data@.len() <= MAX_PIXELS,
    ensures
        r is Ok <==> (img.width >= MIN_EXTENT && img.height >= MIN_EXTENT),
        r matches Err(e) ==> e == PipelineError::DimensionTooSmall,
        r matches Ok(p) ==> {
            &&& p.0.wf()
            &&& p.0.width == img.width
            &&& p.0.height == img.height
            &&& p.0.data@ == spec_pipeline(img.data@, img.width as int, img.height as int)
            &&& (!debug ==> p.1@.len() == 0)
            &&& frames_shaped(p.1@, img.width as int, img.height as int)
        },
{
    let w = img.width;
    let h = img.height;
    if w < MIN_EXTENT || h < MIN_EXTENT {
        return Err(PipelineError::DimensionTooSmall);
    }
    let ghost s: Seq<u8> = img.data@;
    let ghost wi: int = w as int;
    let ghost hi: int = h as int;
    let smaller: usize = if w <= h {
        w
    } else {
        h
    };
    proof {
        assert(smaller * smaller <= w * h) by (nonlinear_arith)
            requires
                smaller <= w,
                smaller <= h,
                0 <= smaller,
        ;
        assert(smaller <= 20000) by (nonlinear_arith)
            requires
                smaller * smaller <= 400_000_000,
                0 <= smaller,
        ;
    }
    let smaller32: u32 = smaller as u32;
    let lg_exec: u32 = log_2(smaller32);
    let ghost lg: nat = spec_log2(smaller as nat);
    proof {
        // smaller >= 16 pins the logarithm at 4 or more.
        if lg_exec < 4 {
            lemma_pow2_monotonic((lg_exec + 1) as nat, 4);
            reveal_with_fuel(pow2, 5);
        }
        reveal_with_fuel(pow2, 5);
        assert(pow2(lg) == 2 * pow2((lg - 1) as nat));
        assert(pow2((lg - 1) as nat) == 2 * pow2((lg - 2) as nat));
        lemma_pow2_positive((lg - 2) as nat);
        lemma_pow2_positive((lg - 4) as nat);
        lemma_pow2_monotonic((lg - 4) as nat, (lg - 2) as nat);
    }
    let max_rounds: u32 = lg_exec - 1;
    let white_rounds: u32 = max_rounds - 2;
    let black_rounds: u32 = max_rounds;
    let mut frames: Vec<TraceFrame> = Vec::new();
    let mut local_black = img.duplicate();
    replace_with_surrounding_extreme(&mut local_black, 1, Extreme::Darker);
    proof {
        assert(pyramid(s, wi, hi, Extreme::Darker, 0) == s);
        assert(pow2(0) == 1);
        assert(local_black.data@ == pyramid(s, wi, hi, Extreme::Darker, 1));
    }
    if debug {
        frames.push(
            TraceFrame { kind: TraceKind::Darkest, scale: 1, image: local_black.duplicate() },
        );
    }
    let mut local_white = local_black.duplicate();
    let mut round: u32 = 1;
    while round < black_rounds
        invariant
            1 <= round <= black_rounds,
            local_black.wf(),
            local_black.width == w,
            local_black.height == h,
            local_white.wf(),
            local_white.width == w,
            local_white.height == h,
            local_black.data@ == pyramid(s, wi, hi, Extreme::Darker, round as nat),
            local_white.data@ == pyramid_from(
                pyramid(s, wi, hi, Extreme::Darker, 1),
                wi,
                hi,
                Extreme::Brighter,
                1,
                spec_min(round as int, white_rounds as int) as nat,
            ),
            !debug ==> frames@.len() == 0,
            frames_shaped(frames@, wi, hi),
        decreases black_rounds - round,
    {
        let distance32: u32 = pow2_u32(round);
        let distance: usize = distance32 as usize;
        proof {
            lemma_pow2_monotonic(round as nat, (lg - 2) as nat);
        }
        if round < white_rounds {
            replace_with_surrounding_extreme(&mut local_white, distance, Extreme::Brighter);
            if debug {
                frames.push(
                    TraceFrame {
                        kind: TraceKind::Brightest,
                        scale: distance32,
                        image: local_white.duplicate(),
                    },
                );
            }
        }
        replace_with_surrounding_extreme(&mut local_black, distance, Extreme::Darker);
        if debug {
            frames.push(
                TraceFrame {
                    kind: TraceKind::Darkest,
                    scale: distance32,
                    image: local_black.duplicate(),
                },
            );
        }
        round = round + 1;
        proof {
            assert(local_black.data@ == pyramid(s, wi, hi, Extreme::Darker, round as nat));
            if round - 1 < white_rounds {
                assert(spec_min(round as int, white_rounds as int) == round);
            } else {
                assert(spec_min(round as int, white_rounds as int) == spec_min(
                    round - 1,
                    white_rounds as int,
                ));
            }
        }
    }
    let black_center32: u32 = pow2_u32(black_rounds - 1);
    let black_center: usize = black_center32 as usize;
    center_and_stretch(&mut local_black, black_center);
    if debug {
        frames.push(
            TraceFrame {
                kind: TraceKind::DarkestStretched,
                scale: black_center32,
                image: local_black.duplicate(),
            },
        );
    }
    let white_center32: u32 = pow2_u32(white_rounds - 1);
    let white_center: usize = white_center32 as usize;
    center_and_stretch(&mut local_white, white_center);
    if debug {
        frames.push(
            TraceFrame {
                kind: TraceKind::BrightestStretched,
                scale: white_center32,
                image: local_white.duplicate(),
            },
        );
    }
    proof {
        assert(local_black.data@ == spec_local_black(s, wi, hi));
        assert(local_white.data@ == spec_local_white(s, wi, hi));
    }
    let mut local_range = local_white;
    subtract(&mut local_range, &local_black);
    if debug {
        frames.push(
            TraceFrame { kind: TraceKind::ColorRange, scale: 0, image: local_range.duplicate() },
        );
    }
    let mut corrected = img.duplicate();
    local_equalize(&mut corrected, &local_black, &local_range);
    if debug {
        frames.push(
            TraceFrame {
                kind: TraceKind::CorrectedUnequalized,
                scale: 0,
                image: corrected.duplicate(),
            },
        );
    }
    proof {
        assert(corrected.data@ == spec_corrected(s, wi, hi));
    }
    let mut distribution = get_distribution(&corrected);
    proof {
        assert forall|v: int| 0 <= v < 256 implies distribution@[v] == spec_distribution(
            corrected.data@,
        )[v] by {}
        assert(distribution@ =~= spec_distribution(corrected.data@));
    }
    let points = get_distribution_local_extrema(&mut distribution);
    apply_global_stretch(&mut corrected, points.0, points.1);
    proof {
        assert(corrected.data@ == spec_pipeline(s, wi, hi));
    }
    Ok((corrected, frames))
}

/// Every pyramid round leaves a uniform buffer unchanged.
pub proof fn lemma_pyramid_uniform(s: Seq<u8>, w: int, h: int, e: Extreme, n: nat, c: u8)
    requires
        s.len() == w * h,
        0 < w,
        0 < h,
        forall|i: int| 0 <= i < s.len() ==> s[i] == c,
    ensures
        pyramid(s, w, h, e, n).len() == s.len(),
        forall|i: int| 0 <= i < s.len() ==> pyramid(s, w, h, e, n)[i] == c,
    decreases n,
{
    if n > 0 {
        lemma_pyramid_uniform(s, w, h, e, (n - 1) as nat, c);
        crate::imageops::lemma_round_uniform_fixed(
            pyramid(s, w, h, e, (n - 1) as nat),
            w,
            h,
            pow2((n - 1) as nat) as int,
            e,
            c,
        );
    }
}

/// As `lemma_pyramid_uniform`, for a partial run of rounds.
pub proof fn lemma_pyramid_from_uniform(
    s: Seq<u8>,
    w: int,
    h: int,
    e: Extreme,
    lo: nat,
    n: nat,
    c: u8,
)
    requires
        s.len() == w * h,
        0 < w,
        0 < h,
        forall|i: int| 0 <= i < s.len() ==> s[i] == c,
    ensures
        pyramid_from(s, w, h, e, lo, n).len() == s.len(),
        forall|i: int| 0 <= i < s.len() ==> pyramid_from(s, w, h, e, lo, n)[i] == c,
    decreases n,
{
    if n > lo {
        lemma_pyramid_from_uniform(s, w, h, e, lo, (n - 1) as nat, c);
        crate::imageops::lemma_round_uniform_fixed(
            pyramid_from(s, w, h, e, lo, (n - 1) as nat),
            w,
            h,
            pow2((n - 1) as nat) as int,
            e,
            c,
        );
    }
}

/// The border repair of a uniform buffer is that uniform buffer.
pub proof fn lemma_center_stretch_uniform(s: Seq<u8>, w: int, h: int, b: int, c: u8)
    requires
        s.len() == w * h,
        0 < w,
        0 < h,
        0 <= b,
        2 * b < w,
        2 * b < h,
        forall|i: int| 0 <= i < s.len() ==> s[i] == c,
    ensures
        center_stretch(s, w, h, b).len() == s.len(),
        forall|i: int| 0 <= i < s.len() ==> center_stretch(s, w, h, b)[i] == c,
{
    assert forall|i: int| 0 <= i < s.len() implies center_stretch(s, w, h, b)[i] == c by {
        crate::buffer::lemma_grid_decompose(
            w,
            h,
            |x: int, y: int|
                s[(crate::imageops::clamp(y, b, h - 1 - b) - b) * w + (crate::imageops::clamp(
                    x,
                    b,
                    w - 1 - b,
                ) - b)],
            i,
        );
        let x = i % w;
        let y = i / w;
        let sx = crate::imageops::clamp(x, b, w - 1 - b) - b;
        let sy = crate::imageops::clamp(y, b, h - 1 - b) - b;
        crate::buffer::lemma_index_bound(sx, sy, w, h);
    }
}

/// The dimension facts the pipeline's round counts rest on, for any image
/// at least `MIN_EXTENT` wide and high.
proof fn lemma_round_count_facts(w: int, h: int)
    requires
        MIN_EXTENT <= w,
        MIN_EXTENT <= h,
    ensures
        4 <= spec_log2(spec_min(w, h) as nat),
        4 * pow2((spec_log2(spec_min(w, h) as nat) - 2) as nat) <= spec_min(w, h),
        1 <= pow2((spec_log2(spec_min(w, h) as nat) - 2) as nat),
        1 <= pow2((spec_log2(spec_min(w, h) as nat) - 4) as nat),
        pow2((spec_log2(spec_min(w, h) as nat) - 4) as nat) <= pow2(
            (spec_log2(spec_min(w, h) as nat) - 2) as nat,
        ),
{
    let m = spec_min(w, h) as nat;
    let lg = spec_log2(m);
    crate::math::lemma_log2_bracket(m);
    if lg < 4 {
        lemma_pow2_monotonic((lg + 1) as nat, 4);
        reveal_with_fuel(pow2, 5);
    }
    assert(pow2(lg) == 2 * pow2((lg - 1) as nat));
    assert(pow2((lg - 1) as nat) == 2 * pow2((lg - 2) as nat));
    lemma_pow2_positive((lg - 2) as nat);
    lemma_pow2_positive((lg - 4) as nat);
    lemma_pow2_monotonic((lg - 4) as nat, (lg - 2) as nat);
}

/// A uniform image stays uniform through the whole pipeline: the local
/// stage maps a flat neighborhood through the zero-range fallback, and the
/// global stretch maps equal pixels equally.
pub proof fn lemma_pipeline_uniform(s: Seq<u8>, w: int, h: int, c: u8)
    requires
        s.len() == w * h,
        MIN_EXTENT <= w,
        MIN_EXTENT <= h,
        forall|i: int| 0 <= i < s.len() ==> s[i] == c,
    ensures
        spec_pipeline(s, w, h).len() == s.len(),
        forall|i: int| 0 <= i < s.len() ==> #[trigger] spec_pipeline(s, w, h)[i] == spec_pipeline(s, w, h)[0],
{
    let m = spec_min(w, h);
    let lg = spec_log2(m as nat);
    let br = spec_black_rounds(w, h);
    let wr = spec_white_rounds(w, h);
    lemma_round_count_facts(w, h);
    let bb = pow2((br - 1) as nat) as int;
    let wb = pow2((wr - 1) as nat) as int;
    lemma_pyramid_uniform(s, w, h, Extreme::Darker, br as nat, c);
    lemma_center_stretch_uniform(pyramid(s, w, h, Extreme::Darker, br as nat), w, h, bb, c);
    lemma_pyramid_uniform(s, w, h, Extreme::Darker, 1, c);
    lemma_pyramid_from_uniform(
        pyramid(s, w, h, Extreme::Darker, 1),
        w,
        h,
        Extreme::Brighter,
        1,
        wr as nat,
        c,
    );
    lemma_center_stretch_uniform(
        pyramid_from(pyramid(s, w, h, Extreme::Darker, 1), w, h, Extreme::Brighter, 1, wr as nat),
        w,
        h,
        wb,
        c,
    );
    let black = spec_local_black(s, w, h);
    let white = spec_local_white(s, w, h);
    let range = diff_map(white, black);
    let corrected = spec_corrected(s, w, h);
    assert(corrected.len() == s.len());
    assert forall|i: int| 0 <= i < s.len() implies corrected[i] == 0u8 by {
        assert(black[i] == c && white[i] == c);
        assert(range[i] == crate::pixelops::spec_sat_sub(c, c));
        assert(corrected[i] == crate::pixelops::spec_equalize(c, c, 0));
    }
    let pts = spec_global_points(corrected);
    let result = spec_pipeline(s, w, h);
    if pts.1 > pts.0 && pts.0 > 0 && pts.1 < 255 {
        assert forall|i: int| 0 <= i < s.len() implies #[trigger] result[i] == result[0] by {
            assert(result[i] == crate::pixelops::spec_equalize(
                corrected[i],
                pts.0,
                (pts.1 - pts.0) as u8,
            ));
            assert(result[0] == crate::pixelops::spec_equalize(
                corrected[0],
                pts.0,
                (pts.1 - pts.0) as u8,
            ));
        }
    } else {
        assert(result == corrected);
    }
}

/// When the smoothed histogram of the locally equalized image yields fewer
/// than 2 turning points, the derived global points are the no-op pair and
/// the global stage leaves the locally equalized result untouched.
pub proof fn lemma_degenerate_histogram_noop(s: Seq<u8>, w: int, h: int)
    requires
        spec_converge(spec_distribution(spec_corrected(s, w, h)), 0).1.len() < 2,
    ensures
        spec_global_points(spec_corrected(s, w, h)) == (0u8, 255u8),
        spec_pipeline(s, w, h) == spec_corrected(s, w, h),
{
    let c = spec_corrected(s, w, h);
    assert(spec_derive(spec_converge(spec_distribution(c), 0).1) == (0u8, 255u8));
}

} // verus!
