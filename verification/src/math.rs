//! Integer powers of two and the base-2 logarithm that sizes the pyramid.

use vstd::prelude::*;

verus! {

/// `2^e` as a mathematical integer.
pub open spec fn pow2(e: nat) -> nat
    decreases e,
{
    if e == 0 { 1 } else { 2 * pow2((e - 1) as nat) }
}

pub proof fn lemma_pow2_positive(e: nat)
    ensures
        pow2(e) >= 1,
    decreases e,
{
    if e > 0 {
        lemma_pow2_positive((e - 1) as nat);
    }
}

pub proof fn lemma_pow2_monotonic(a: nat, b: nat)
    requires
        a <= b,
    ensures
        pow2(a) <= pow2(b),
    decreases b,
{
    if a < b {
        lemma_pow2_monotonic(a, (b - 1) as nat);
        lemma_pow2_positive((b - 1) as nat);
    }
}

pub proof fn lemma_pow2_word_bounds()
    ensures
        pow2(31) == 0x8000_0000,
        pow2(32) == 0x1_0000_0000,
{
    reveal_with_fuel(pow2, 33);
}

/// Floor of the base-2 logarithm as a mathematical function.
pub open spec fn spec_log2(x: nat) -> nat
    decreases x,
{
    if x <= 1 {
        0
    } else {
        1 + spec_log2(x / 2)
    }
}

/// `spec_log2` is the unique exponent whose power-of-two bracket holds `x`.
pub proof fn lemma_log2_unique(x: nat, k: nat)
    requires
        pow2(k) <= x < pow2((k + 1) as nat),
    ensures
        spec_log2(x) == k,
    decreases k,
{
    if k == 0 {
        assert(x == 1);
    } else {
        let c = pow2((k - 1) as nat);
        assert(pow2(k) == 2 * c);
        assert(pow2((k + 1) as nat) == 2 * pow2(k));
        lemma_pow2_positive((k - 1) as nat);
        assert(x >= 2);
        vstd::arithmetic::div_mod::lemma_div_is_ordered(2 * (c as int), x as int, 2);
        vstd::arithmetic::div_mod::lemma_div_multiples_vanish(c as int, 2);
        assert(x as int / 2 >= c);
        vstd::arithmetic::div_mod::lemma_div_is_ordered(x as int, 2 * pow2(k) - 1, 2);
        vstd::arithmetic::div_mod::lemma_fundamental_div_mod_converse(
            2 * pow2(k) - 1,
            2,
            pow2(k) as int - 1,
            1,
        );
        assert(x as int / 2 < pow2(k));
        assert(x / 2 == x as int / 2);
        lemma_log2_unique(x / 2, (k - 1) as nat);
    }
}


/// The power-of-two bracket around `spec_log2`.
pub proof fn lemma_log2_bracket(x: nat)
    requires
        x >= 1,
    ensures
        pow2(spec_log2(x)) <= x < pow2(spec_log2(x) + 1),
    decreases x,
{
    if x == 1 {
        reveal_with_fuel(pow2, 2);
    } else {
        let l = spec_log2(x);
        lemma_log2_bracket(x / 2);
        assert(l == 1 + spec_log2(x / 2));
        vstd::arithmetic::div_mod::lemma_fundamental_div_mod(x as int, 2);
        assert(pow2(l) == 2 * pow2((l - 1) as nat));
        assert(pow2(l + 1) == 2 * pow2(l));
    }
}

/// Floor of the base-2 logarithm: the result `r` satisfies
/// `2^r <= x < 2^(r + 1)`.
pub fn log_2(x: u32) -> (r: u32)
    requires
        x >= 1,
    ensures
        pow2(r as nat) <= x < pow2((r + 1) as nat),
        r < 32,
        r == spec_log2(x as nat),
{
    let mut r: u32 = 0;
    let mut p: u32 = 1;
    while x / 2 >= p
        invariant
            1 <= x,
            1 <= p,
            p == pow2(r as nat),
            p <= x,
            r < 32,
        decreases x - p,
    {
        p = p * 2;
        r = r + 1;
        proof {
            if r >= 32 {
                lemma_pow2_word_bounds();
                lemma_pow2_monotonic(32, r as nat);
            }
        }
    }
    proof {
        lemma_log2_unique(x as nat, r as nat);
    }
    r
}

/// `2^e` as a machine integer.
pub fn pow2_u32(e: u32) -> (r: u32)
    requires
        e < 32,
    ensures
        r == pow2(e as nat),
{
    let mut r: u32 = 1;
    let mut i: u32 = 0;
    while i < e
        invariant
            i <= e < 32,
            r == pow2(i as nat),
        decreases e - i,
    {
        proof {
            lemma_pow2_word_bounds();
            lemma_pow2_monotonic((i + 1) as nat, 31);
        }
        r = r * 2;
        i = i + 1;
    }
    r
}

} // verus!
