//! Fixed-point arithmetic for the UCT selection score.
//!
//! Scores carry `SCALE` units per whole number. Wins are counted in half
//! points (a draw is worth one half point, a win two), so the average reward
//! of a node is `wins / (2 * visits)`.
//!
//! The score approximates the UCT formula: the logarithm is interpolated
//! linearly between powers of two, which reads it low by at most about 0.06
//! (in natural-log units), and each division and square root rounds down to
//! the next `1 / SCALE`. Two children whose exact scores are that close may
//! therefore be ranked the other way round.
use vstd::arithmetic::power2::{
    lemma2_to64, lemma_pow2_pos, lemma_pow2_strictly_increases, lemma_pow2_unfold, pow2,
};
use vstd::prelude::*;

verus! {

/// Units per whole number in a fixed-point value.
pub const SCALE: u64 = 65536;

/// The natural logarithm of 2, in fixed point (0.693147... times `SCALE`).
pub const LN2_FIXED: u64 = 45426;

/// The largest `k` with `2^k <= n` (0 for `n < 2`).
pub open spec fn ilog2(n: nat) -> nat
    decreases n,
{
    if n < 2 {
        0
    } else {
        1 + ilog2(n / 2)
    }
}

/// An approximation of the base-2 logarithm, in fixed point: the integer
/// part is exact, the fraction is interpolated linearly between neighbouring
/// powers of two, so the value is never above `log2(n)` and at most about
/// 0.086 below it, before rounding down to a unit.
pub open spec fn log2_fixed(n: nat) -> int {
    let k = ilog2(n);
    let p = pow2(k);
    k * SCALE + (n - p) * SCALE / p as int
}

/// An approximation of the natural logarithm, in fixed point: `log2_fixed`
/// times `ln 2`, at most about 0.06 below `ln(n)`, before rounding.
pub open spec fn ln_fixed(n: nat) -> int {
    log2_fixed(n) * LN2_FIXED / SCALE as int
}

/// Whether `r` is the integer square root of `x`.
pub open spec fn is_isqrt(x: nat, r: nat) -> bool {
    r * r <= x && x < (r + 1) * (r + 1)
}

/// The integer square root of `x`: the largest `r` with `r * r <= x`.
pub open spec fn isqrt(x: nat) -> nat {
    choose|r: nat| is_isqrt(x, r)
}

/// The score of a child with `wins` half points over `visits` visits, whose
/// parent has `parent_visits` visits, in fixed point. It approximates the UCT
/// formula `wins / visits + sqrt(2 * ln(parent_visits) / visits)` (wins in
/// whole points), with `ln_fixed` in place of the logarithm and every
/// division and root rounded down.
pub open spec fn uct(wins: nat, visits: nat, parent_visits: nat) -> int
    recommends
        visits >= 1,
        parent_visits >= 1,
{
    wins * SCALE / (2 * visits) as int + isqrt(
        (2 * ln_fixed(parent_visits) * SCALE / visits as int) as nat,
    )
}

/// `2^ilog2(n)` lies in `(n / 2, n]` for `n >= 1`.
proof fn lemma_pow2_ilog2(n: nat)
    requires
        n >= 1,
    ensures
        pow2(ilog2(n)) <= n,
        n < 2 * pow2(ilog2(n)),
    decreases n,
{
    if n >= 2 {
        lemma_pow2_ilog2(n / 2);
        lemma_pow2_unfold(ilog2(n));
        assert(ilog2(n) == 1 + ilog2(n / 2));
    } else {
        lemma2_to64();
    }
}

proof fn lemma_ilog2_bound(n: nat)
    requires
        n <= u64::MAX,
    ensures
        ilog2(n) < 64,
{
    if n >= 1 {
        lemma_pow2_ilog2(n);
        let k = ilog2(n);
        if k >= 64 {
            lemma2_to64();
            if k > 64 {
                lemma_pow2_strictly_increases(64, k);
            }
        }
    }
}

proof fn lemma_isqrt_unique(x: nat, r: nat)
    requires
        is_isqrt(x, r),
    ensures
        isqrt(x) == r,
{
    let s = isqrt(x);
    assert(is_isqrt(x, s));
    if s < r {
        assert((s + 1) * (s + 1) <= r * r) by (nonlinear_arith)
            requires
                s + 1 <= r,
        ;
    } else if r < s {
        assert((r + 1) * (r + 1) <= s * s) by (nonlinear_arith)
            requires
                r + 1 <= s,
        ;
    }
}

/// Integer square root by bisection.
pub fn integer_sqrt(x: u64) -> (r: u64)
    requires
        x < 0x100_0000_0000,
    ensures
        r == isqrt(x as nat),
        r * r <= x,
{
    let mut lo: u64 = 0;
    let mut hi: u64 = 0x10_0001;
    assert(x < hi * hi) by (nonlinear_arith)
        requires
            x < 0x100_0000_0000,
            hi == 0x10_0001,
    ;
    while hi - lo > 1
        invariant
            lo < hi <= 0x10_0001,
            lo * lo <= x,
            x < hi * hi,
        decreases hi - lo,
    {
        let mid: u64 = lo + (hi - lo) / 2;
        assert(mid * mid <= 0x100_0020_0001) by (nonlinear_arith)
            requires
                mid <= 0x10_0001,
        ;
        if mid * mid <= x {
            lo = mid;
        } else {
            hi = mid;
        }
    }
    proof {
        assert(hi == lo + 1);
        lemma_isqrt_unique(x as nat, lo as nat);
    }
    lo
}

/// The approximate base-2 logarithm of `n` (see `log2_fixed`).
pub fn log2_fixed_of(n: u64) -> (r: u64)
    requires
        n >= 1,
    ensures
        r == log2_fixed(n as nat),
        r < 65 * SCALE,
{
    let mut m: u64 = n;
    let mut k: u64 = 0;
    let mut p: u64 = 1;
    proof {
        lemma2_to64();
        lemma_ilog2_bound(n as nat);
    }
    while m >= 2
        invariant
            1 <= m <= n,
            ilog2(n as nat) == k + ilog2(m as nat),
            ilog2(n as nat) < 64,
            p == pow2(k as nat),
            p * m <= n,
        decreases m,
    {
        assert(ilog2(m as nat) == 1 + ilog2((m / 2) as nat));
        assert(p * 2 <= p * m) by (nonlinear_arith)
            requires
                m >= 2,
        ;
        assert(p * 2 * (m / 2) <= p * m) by (nonlinear_arith)
            requires
                m >= 2,
        ;
        proof {
            lemma_pow2_unfold((k + 1) as nat);
        }
        m = m / 2;
        k = k + 1;
        p = p * 2;
    }
    proof {
        lemma_pow2_ilog2(n as nat);
        lemma_pow2_pos(k as nat);
    }
    let frac: u128 = (n - p) as u128 * (SCALE as u128) / (p as u128);
    assert(frac < SCALE) by (nonlinear_arith)
        requires
            frac == (n - p) * SCALE / (p as int),
            n < 2 * p,
            p > 0,
    ;
    k * SCALE + frac as u64
}

/// The approximate natural logarithm of `n` (see `ln_fixed`).
pub fn ln_fixed_of(n: u64) -> (r: u64)
    requires
        n >= 1,
    ensures
        r == ln_fixed(n as nat),
        r <= 65 * LN2_FIXED,
{
    let l = log2_fixed_of(n);
    assert(l * LN2_FIXED / (SCALE as int) <= 65 * LN2_FIXED) by (nonlinear_arith)
        requires
            l < 65 * SCALE,
    ;
    l * LN2_FIXED / SCALE
}

/// The approximate UCT score of a child (see `uct`).
pub fn uct_score(wins: u64, visits: u64, parent_visits: u64) -> (r: u64)
    requires
        visits >= 1,
        parent_visits >= 1,
        wins <= 2 * visits,
    ensures
        r == uct(wins as nat, visits as nat, parent_visits as nat),
{
    assert((wins as u128) * (SCALE as u128) <= u64::MAX * SCALE) by (nonlinear_arith)
        requires
            wins <= u64::MAX,
    ;
    let exploit: u128 = (wins as u128) * (SCALE as u128) / (2 * (visits as u128));
    assert(exploit <= SCALE) by (nonlinear_arith)
        requires
            exploit == wins * SCALE / (2 * visits) as int,
            wins <= 2 * visits,
            visits >= 1,
    ;
    let ln = ln_fixed_of(parent_visits);
    let explore = integer_sqrt(2 * ln * SCALE / visits);
    assert(explore <= 0x10_0000) by (nonlinear_arith)
        requires
            explore * explore <= 2 * ln * SCALE / (visits as int),
            ln <= 65 * LN2_FIXED,
            visits >= 1,
    ;
    exploit as u64 + explore
}

} // verus!
