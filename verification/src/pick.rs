use vstd::prelude::*;
use vstd::arithmetic::div_mod::lemma_multiply_divide_lt;
use vstd::arithmetic::mul::lemma_mul_upper_bound;
use rand::rngs::StdRng;
use crate::rng::draw_u64;

verus! {

/// One in Q0.64 fixed point: positions in the unit interval `[0, 1)` are
/// stored as a `u64` numerator over this scale.
const UNIT: u128 = 0x1_0000_0000_0000_0000;

/// The exponential growth rate of the frontier skew: the rounded value of
/// Euler's number raised to `b`, with `b` clamped to 10.
spec fn spec_growth_steps(b: int) -> int {
    let c: int = if b > 10 {
        10int
    } else {
        b
    };
    if c == 1 {
        3int
    } else if c == 2 {
        7int
    } else if c == 3 {
        20int
    } else if c == 4 {
        55int
    } else if c == 5 {
        148int
    } else if c == 6 {
        403int
    } else if c == 7 {
        1097int
    } else if c == 8 {
        2981int
    } else if c == 9 {
        8103int
    } else {
        22026int
    }
}

/// The exponential growth rate of the frontier skew: the rounded value of
/// Euler's number raised to `b`, with `b` clamped to 10. Larger rates make the
/// chosen end of the frontier list ever more likely.
fn growth_steps(b: i64) -> (m: u64)
    requires
        1 <= b,
    ensures
        m == spec_growth_steps(b as int),
        1 <= m <= 22026,
{
    let c: i64 = if b > 10 {
        10
    } else {
        b
    };
    match c {
        1i64 => 3,
        2i64 => 7,
        3i64 => 20,
        4i64 => 55,
        5i64 => 148,
        6i64 => 403,
        7i64 => 1097,
        8i64 => 2981,
        9i64 => 8103,
        _ => 22026,
    }
}

/// Product of two Q0.64 fixed-point fractions of the unit interval.
fn fixmul(a: u64, b: u64) -> (r: u64)
    ensures
        r == (a * b) / (UNIT as int),
{
    proof {
        lemma_mul_upper_bound(a as int, u64::MAX as int, b as int, u64::MAX as int);
    }
    let prod: u128 = (a as u128) * (b as u128);
    proof {
        lemma_multiply_divide_lt(prod as int, UNIT as int, UNIT as int);
    }
    (prod / UNIT) as u64
}

/// `u` raised to the power `m` in Q0.64 fixed point: the m-fold product of
/// the fraction with itself, truncated to the scale after each step.
spec fn spec_fixpow(u: int, m: nat) -> int
    decreases m,
{
    if m <= 1 {
        u
    } else {
        (spec_fixpow(u, (m - 1) as nat) * u) / (UNIT as int)
    }
}

/// `u` raised to the power `m` in Q0.64 fixed point.
fn fixpow(u: u64, m: u64) -> (p: u64)
    requires
        1 <= m,
    ensures
        p == spec_fixpow(u as int, m as nat),
{
    let mut p: u64 = u;
    let mut k: u64 = 1;
    while k < m
        invariant
            1 <= k <= m,
            p == spec_fixpow(u as int, k as nat),
        decreases m - k,
    {
        p = fixmul(p, u);
        proof {
            assert(spec_fixpow(u as int, (k + 1) as nat) == (spec_fixpow(u as int, k as nat) * (
            u as int)) / (UNIT as int));
        }
        k = k + 1;
    }
    p
}

/// Maps a Q0.64 position in the unit interval to an index below `len`: the
/// floor of the position times the length.
fn scale_to_index(pos: u64, len: usize) -> (idx: usize)
    requires
        1 <= len,
    ensures
        idx < len,
        idx == (pos * len) / (UNIT as int),
{
    proof {
        lemma_mul_upper_bound(pos as int, u64::MAX as int, len as int, u64::MAX as int);
    }
    let prod: u128 = (pos as u128) * (len as u128);
    proof {
        assert(prod < UNIT * len) by (nonlinear_arith)
            requires
                prod == (pos as int) * (len as int),
                pos < UNIT,
                1 <= len,
        ;
        lemma_multiply_divide_lt(prod as int, UNIT as int, len as int);
    }
    (prod / UNIT) as usize
}

/// Select a random position in the frontier list.
///
/// A zero branch rate picks uniformly. A positive branch rate skews the pick
/// toward the front of the list (the oldest exposed cells), which yields long
/// corridors; the position is one uniform draw raised to the growth power,
/// which concentrates it near zero. A negative branch rate skews toward the
/// back of the list (the most recently exposed cells), giving depth-first
/// growth; the position is the maximum of several uniform draws, which
/// concentrates it near one. Whatever is drawn, the index is below `len`.
pub(crate) fn pick_frontier_index(rng: &mut StdRng, len: usize, branchrate: i64) -> (idx: usize)
    requires
        1 <= len,
    ensures
        idx < len,
{
    if branchrate == 0 {
        let u = draw_u64(rng);
        scale_to_index(u, len)
    } else if branchrate > 0 {
        let m = growth_steps(branchrate);
        let u = draw_u64(rng);
        scale_to_index(fixpow(u, m), len)
    } else {
        let mag: i64 = if branchrate < -10 {
            10
        } else {
            -branchrate
        };
        let m = growth_steps(mag);
        let mut best: u64 = draw_u64(rng);
        let mut k: u64 = 1;
        while k < m
            invariant
                k <= m,
            decreases m - k,
        {
            let u = draw_u64(rng);
            if u > best {
                best = u;
            }
            k = k + 1;
        }
        scale_to_index(best, len)
    }
}

} // verus!
