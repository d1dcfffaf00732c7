//! Histogram-driven global tone refinement: a log-compressed intensity
//! histogram, iterative smoothing with turning-point extraction, and the
//! derived global black/white stretch.

use vstd::prelude::*;
use crate::buffer::GrayscaleBuffer;
use crate::pixelops::spec_equalize;

verus! {

/// Largest pixel count the histogram stage accepts; keeps every occurrence
/// count, and the compression loop's round counter, inside `u32`.
pub const MAX_PIXELS: usize = 400_000_000;

/// How often intensity `v` occurs in `s`.
pub open spec fn count_val(s: Seq<u8>, v: u8) -> nat
    decreases s.len(),
{
    if s.len() == 0 {
        0
    } else {
        count_val(s.drop_last(), v) + if s.last() == v {
            1nat
        } else {
            0nat
        }
    }
}

pub proof fn lemma_count_val_le_len(s: Seq<u8>, v: u8)
    ensures
        count_val(s, v) <= s.len(),
    decreases s.len(),
{
    if s.len() > 0 {
        lemma_count_val_le_len(s.drop_last(), v);
    }
}

pub proof fn lemma_count_take_succ(s: Seq<u8>, i: int, v: u8)
    requires
        0 <= i < s.len(),
    ensures
        count_val(s.take(i + 1), v) == count_val(s.take(i), v) + if s[i] == v {
            1int
        } else {
            0int
        },
{
    assert(s.take(i + 1).drop_last() =~= s.take(i));
    assert(s.take(i + 1).last() == s[i]);
}

/// Rounds of multiplying by 11/10 in fixed point, starting at `p`, that stay
/// at or below `target`: the integer recurrence behind the log-compression.
pub open spec fn compress_steps(p: int, target: int) -> nat
    decreases target - p via compress_steps_decreases
{
    if p < 10 || 11 * p / 10 > target {
        0
    } else {
        1 + compress_steps(11 * p / 10, target)
    }
}

#[via_fn]
proof fn compress_steps_decreases(p: int, target: int) {
    if !(p < 10 || 11 * p / 10 > target) {
        lemma_ratio_step_grows(p);
    }
}

/// One 11/10 fixed-point step strictly grows any value of at least 10.
pub proof fn lemma_ratio_step_grows(p: int)
    requires
        p >= 10,
    ensures
        11 * p / 10 >= p + 1,
        11 * p / 10 == p + p / 10,
{
    assert(11 * p == 10 * p + p);
    vstd::arithmetic::div_mod::lemma_hoist_over_denominator(p, p, 10nat);
    vstd::arithmetic::div_mod::lemma_div_is_ordered(10, p, 10);
}

/// The log-compressed occurrence count: how many 11/10 steps fit below
/// `1 + count` in 32-bit fixed point — an integer form of
/// `log base 1.1 of (1 + count)`.
pub open spec fn spec_log_compress(count: int) -> nat {
    compress_steps(0x1_0000_0000, (count + 1) * 0x1_0000_0000)
}

pub fn log_compress(count: u32) -> (r: u32)
    requires
        count <= MAX_PIXELS,
    ensures
        r == spec_log_compress(count as int),
{
    let target: u128 = (count as u128 + 1) * 0x1_0000_0000;
    let mut p: u128 = 0x1_0000_0000;
    let mut k: u32 = 0;
    while 11 * p / 10 <= target
        invariant
            0x1_0000_0000 <= p <= target,
            target == (count as int + 1) * 0x1_0000_0000,
            count <= MAX_PIXELS,
            p >= 0x1_0000_0000 + k * 429496729,
            spec_log_compress(count as int) == k + compress_steps(p as int, target as int),
        decreases target - p,
    {
        proof {
            lemma_ratio_step_grows(p as int);
            vstd::arithmetic::div_mod::lemma_div_is_ordered(0x1_0000_0000, p as int, 10);
            assert(k * 429496729 <= target - 0x1_0000_0000);
            assert((count as int + 1) * 0x1_0000_0000 - 0x1_0000_0000 == count as int
                * 0x1_0000_0000);
            assert(k < 4294967295) by {
                if k >= 4294967295 {
                    assert(k * 429496729 >= 4294967295 * 429496729);
                }
            }
        }
        p = 11 * p / 10;
        k = k + 1;
    }
    proof {
        assert(compress_steps(p as int, target as int) == 0);
    }
    k
}

/// The 256-bin histogram of the image, each occurrence count log-compressed
/// so a dominant background peak does not drown out smaller peaks during
/// smoothing.
pub fn get_distribution(img: &GrayscaleBuffer) -> (r: Vec<u32>)
    requires
        img.wf(),
        img.data@.len() <= MAX_PIXELS,
    ensures
        r@.len() == 256,
        forall|v: int|
            0 <= v < 256 ==> r@[v] == spec_log_compress(count_val(img.data@, v as u8) as int),
{
    let mut counts: Vec<u32> = Vec::new();
    let mut v: usize = 0;
    while v < 256
        invariant
            v <= 256,
            counts@.len() == v,
            forall|j: int| 0 <= j < v ==> counts@[j] == 0,
        decreases 256 - v,
    {
        counts.push(0);
        v = v + 1;
    }
    let n: usize = img.data.len();
    let mut i: usize = 0;
    proof {
        assert forall|t: int| 0 <= t < 256 implies counts@[t] == count_val(
            img.data@.take(0),
            t as u8,
        ) by {
            assert(img.data@.take(0).len() == 0);
        }
    }
    #[verifier::loop_isolation(false)]
    while i < n
        invariant
            i <= n,
            counts@.len() == 256,
            forall|t: int| 0 <= t < 256 ==> counts@[t] == count_val(img.data@.take(i as int), t as u8),
        decreases n - i,
    {
        let pv = img.data[i];
        let idx = pv as usize;
        proof {
            lemma_count_val_le_len(img.data@.take(i as int), pv);
        }
        let c = counts[idx];
        counts.set(idx, c + 1);
        proof {
            assert forall|t: int| 0 <= t < 256 implies counts@[t] == count_val(
                img.data@.take(i + 1),
                t as u8,
            ) by {
                lemma_count_take_succ(img.data@, i as int, t as u8);
            }
        }
        i = i + 1;
    }
    proof {
        assert(img.data@.take(n as int) =~= img.data@);
    }
    let mut r: Vec<u32> = Vec::new();
    let mut v: usize = 0;
    #[verifier::loop_isolation(false)]
    while v < 256
        invariant
            v <= 256,
            r@.len() == v,
            forall|j: int|
                0 <= j < v ==> r@[j] == spec_log_compress(count_val(img.data@, j as u8) as int),
        decreases 256 - v,
    {
        proof {
            lemma_count_val_le_len(img.data@, v as u8);
        }
        let c = counts[v];
        r.push(log_compress(c));
        v = v + 1;
    }
    r
}

/// Average of two bins, as the sweep computes it.
pub open spec fn spec_avg(a: u32, b: u32) -> u32 {
    ((a + b) / 2) as u32
}

/// One left-to-right smoothing sweep: each bin averaged with its right
/// neighbor, the last bin kept.
pub open spec fn smooth_ltr(s: Seq<u32>) -> Seq<u32> {
    Seq::new(s.len(), |i: int| if i + 1 < s.len() { spec_avg(s[i], s[i + 1]) } else { s[i] })
}

/// One right-to-left smoothing sweep: each bin averaged with its left
/// neighbor, the first bin kept.
pub open spec fn smooth_rtl(s: Seq<u32>) -> Seq<u32> {
    Seq::new(s.len(), |i: int| if i >= 1 { spec_avg(s[i], s[i - 1]) } else { s[i] })
}

pub open spec fn spec_smooth(s: Seq<u32>, right_to_left: bool) -> Seq<u32> {
    if right_to_left {
        smooth_rtl(s)
    } else {
        smooth_ltr(s)
    }
}

/// Sign of a discrete first difference.
pub open spec fn sgn(d: int) -> int {
    if d > 0 {
        1
    } else if d < 0 {
        -1
    } else {
        0
    }
}

/// One step of the turning-point scan: a sign flip relative to the last
/// nonzero slope records the bin where the flip happened.
pub open spec fn turn_step(st: (int, Seq<u8>), d: int, idx: u8) -> (int, Seq<u8>) {
    if d != 0 && d != st.0 {
        (d, if st.0 != 0 { st.1.push(idx) } else { st.1 })
    } else {
        st
    }
}

/// The scan state after the first `k` slope inspections of a left-to-right
/// sweep over the smoothed bins `s`.
pub open spec fn turns_ltr(s: Seq<u32>, k: int) -> (int, Seq<u8>)
    decreases k,
{
    if k <= 0 {
        (0int, Seq::<u8>::empty())
    } else {
        turn_step(turns_ltr(s, k - 1), sgn(s[k] - s[k - 1]), k as u8)
    }
}

/// The scan state after the first `k` slope inspections of a right-to-left
/// sweep: inspection `k` looks at bin `255 - k` against its right neighbor.
pub open spec fn turns_rtl(s: Seq<u32>, k: int) -> (int, Seq<u8>)
    decreases k,
{
    if k <= 0 {
        (0int, Seq::<u8>::empty())
    } else {
        turn_step(turns_rtl(s, k - 1), sgn(s[255 - k] - s[256 - k]), (255 - k) as u8)
    }
}

/// The turning points a full sweep reports over the smoothed bins `s`,
/// in increasing bin order for either sweep direction.
pub open spec fn spec_extrema(s: Seq<u32>, right_to_left: bool) -> Seq<u8> {
    if right_to_left {
        turns_rtl(s, 254).1.reverse()
    } else {
        turns_ltr(s, 254).1
    }
}

/// One smoothing sweep over the 256 bins that also records every turning
/// point: a bin where the sign of the discrete first difference flips
/// relative to the previous nonzero slope. The sweep direction alternates
/// between rounds to avoid directional bias.
#[verifier::loop_isolation(false)]
pub fn smooth_and_get_distribution_local_extrema(
    distribution: &mut Vec<u32>,
    right_to_left: bool,
) -> (r: Vec<u8>)
    requires
        old(distribution)@.len() == 256,
    ensures
        final(distribution)@ == spec_smooth(old(distribution)@, right_to_left),
        r@ == spec_extrema(spec_smooth(old(distribution)@, right_to_left), right_to_left),
{
    let ghost orig: Seq<u32> = distribution@;
    let mut extrema: Vec<u8> = Vec::new();
    let mut prev_derivative: i64 = 0;
    if right_to_left {
        let ghost target: Seq<u32> = smooth_rtl(orig);
        let mut i: usize = 0;
        while i < 255
            invariant
                i <= 255,
                distribution@.len() == 256,
                forall|j: int| 256 - i <= j < 256 ==> distribution@[j] == target[j],
                forall|j: int| 0 <= j < 256 - i ==> distribution@[j] == orig[j],
                (prev_derivative as int, extrema@) == turns_rtl(target, i as int - 1),
            decreases 255 - i,
        {
            let idx: usize = 255 - i;
            let a = distribution[idx];
            let b = distribution[idx - 1];
            let avg: u32 = ((a as u64 + b as u64) / 2) as u32;
            distribution.set(idx, avg);
            if i > 0 {
                let d: i64 = (distribution[idx] as i64) - (distribution[idx + 1] as i64);
                let s: i64 = if d > 0 {
                    1
                } else if d < 0 {
                    -1
                } else {
                    0
                };
                if s != 0 && s != prev_derivative {
                    if prev_derivative != 0 {
                        extrema.push(idx as u8);
                    }
                    prev_derivative = s;
                }
            }
            i = i + 1;
        }
        proof {
            assert(distribution@ =~= target);
        }
        let len = extrema.len();
        let mut rev: Vec<u8> = Vec::new();
        let mut k: usize = 0;
        while k < len
            invariant
                k <= len,
                len == extrema@.len(),
                rev@.len() == k,
                forall|j: int| 0 <= j < k ==> rev@[j] == extrema@[len - 1 - j],
            decreases len - k,
        {
            rev.push(extrema[len - 1 - k]);
            k = k + 1;
        }
        proof {
            assert(rev@ =~= extrema@.reverse());
        }
        rev
    } else {
        let ghost target: Seq<u32> = smooth_ltr(orig);
        let mut i: usize = 0;
        while i < 255
            invariant
                i <= 255,
                distribution@.len() == 256,
                forall|j: int| 0 <= j < i ==> distribution@[j] == target[j],
                forall|j: int| i <= j < 256 ==> distribution@[j] == orig[j],
                (prev_derivative as int, extrema@) == turns_ltr(target, i as int - 1),
            decreases 255 - i,
        {
            let a = distribution[i];
            let b = distribution[i + 1];
            let avg: u32 = ((a as u64 + b as u64) / 2) as u32;
            distribution.set(i, avg);
            if i > 0 {
                let d: i64 = (distribution[i] as i64) - (distribution[i - 1] as i64);
                let s: i64 = if d > 0 {
                    1
                } else if d < 0 {
                    -1
                } else {
                    0
                };
                if s != 0 && s != prev_derivative {
                    if prev_derivative != 0 {
                        extrema.push(i as u8);
                    }
                    prev_derivative = s;
                }
            }
            i = i + 1;
        }
        proof {
            assert(distribution@ =~= target);
        }
        extrema
    }
}

/// The smoothing loop from `round` onward: smooth once per round with
/// alternating direction, stop when at most 3 turning points remain or the
/// round cap is exhausted. Both exits are valid; the cap is a deliberate
/// bound, not an error.
pub open spec fn spec_converge(s: Seq<u32>, round: int) -> (Seq<u32>, Seq<u8>)
    decreases 101 - round,
{
    if round < 0 || round > 100 {
        (s, Seq::<u8>::empty())
    } else {
        let rtl = round % 2 == 1;
        let s2 = spec_smooth(s, rtl);
        let ex = spec_extrema(s2, rtl);
        if ex.len() <= 3 || round + 1 > 100 {
            (s2, ex)
        } else {
            spec_converge(s2, round + 1)
        }
    }
}

/// Run smoothing sweeps from `round` until at most 3 turning points remain
/// or the round cap is reached; the `decreases` bound proves the loop halts
/// within the cap for every 256-bin input.
pub fn smooth_until_converged(distribution: &mut Vec<u32>, round: u32) -> (r: Vec<u8>)
    requires
        old(distribution)@.len() == 256,
        round <= 100,
    ensures
        final(distribution)@ == spec_converge(old(distribution)@, round as int).0,
        r@ == spec_converge(old(distribution)@, round as int).1,
    decreases 101 - round,
{
    let right_to_left = round % 2 == 1;
    let extrema = smooth_and_get_distribution_local_extrema(distribution, right_to_left);
    if extrema.len() <= 3 || round + 1 > 100 {
        extrema
    } else {
        smooth_until_converged(distribution, round + 1)
    }
}

/// The global black and white points read off a turning-point list: an
/// extrapolation assuming symmetric falloff around the informative range,
/// falling back to the no-op pair (0, 255) when fewer than 2 turning points
/// remain or the extrapolated points are out of order.
pub open spec fn spec_derive(ex: Seq<u8>) -> (u8, u8) {
    if ex.len() < 2 {
        (0u8, 255u8)
    } else {
        let dark = 2 * (ex[0] as int);
        let light = 2 * (ex[ex.len() - 1] as int) - 255;
        if dark > light {
            (0u8, 255u8)
        } else {
            (dark as u8, light as u8)
        }
    }
}

pub fn derive_global_points(extrema: &Vec<u8>) -> (r: (u8, u8))
    ensures
        r == spec_derive(extrema@),
{
    if extrema.len() < 2 {
        (0, 255)
    } else {
        let first = extrema[0];
        let last = extrema[extrema.len() - 1];
        let dark: i32 = 2 * (first as i32);
        let light: i32 = 2 * (last as i32) - 255;
        if dark > light {
            (0, 255)
        } else {
            (dark as u8, light as u8)
        }
    }
}

/// Smooth the histogram to convergence (or the cap) and derive the global
/// black and white points from the surviving turning points.
pub fn get_distribution_local_extrema(distribution: &mut Vec<u32>) -> (r: (u8, u8))
    requires
        old(distribution)@.len() == 256,
    ensures
        final(distribution)@ == spec_converge(old(distribution)@, 0).0,
        r == spec_derive(spec_converge(old(distribution)@, 0).1),
{
    let extrema = smooth_until_converged(distribution, 0);
    derive_global_points(&extrema)
}

/// The final global pass: a tone stretch over `[black, white]` when the
/// points are strictly inside the intensity range and ordered; otherwise the
/// image is left untouched.
pub open spec fn spec_global_stretch(s: Seq<u8>, black: u8, white: u8) -> Seq<u8> {
    if white > black && black > 0 && white < 255 {
        Seq::new(s.len(), |i: int| spec_equalize(s[i], black, (white - black) as u8))
    } else {
        s
    }
}

#[verifier::loop_isolation(false)]
pub fn apply_global_stretch(img: &mut GrayscaleBuffer, black: u8, white: u8)
    requires
        old(img).wf(),
    ensures
        final(img).wf(),
        final(img).width == old(img).width,
        final(img).height == old(img).height,
        final(img).data@ == spec_global_stretch(old(img).data@, black, white),
{
    if white > black && black > 0 && white < 255 {
        let range: u8 = white - black;
        let ghost orig: Seq<u8> = img.data@;
        let n: usize = img.data.len();
        let mut out: Vec<u8> = Vec::new();
        let mut i: usize = 0;
        while i < n
            invariant
                i <= n,
                img.data@ == orig,
                out@.len() == i,
                forall|j: int| 0 <= j < i ==> out@[j] == spec_equalize(orig[j], black, range),
            decreases n - i,
        {
            let v = crate::pixelops::equalize(img.data[i], black, range);
            out.push(v);
            i = i + 1;
        }
        proof {
            assert(out@ =~= spec_global_stretch(orig, black, white));
        }
        img.data = out;
    }
}


} // verus!
