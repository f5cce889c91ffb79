//! Fixed-point arithmetic for the UCB1 selection rule.
//!
//! Selection compares `scores[p] / visits + sqrt(2 * ln(parent_visits + 1) / visits)`
//! across siblings. Only the order of the values matters, so the engine
//! evaluates the formula in fixed-point integer arithmetic: every term is
//! scaled by `SCALE`, the natural logarithm is approximated from the floor
//! base-two logarithm, and the square root is the integer floor square root.
//! The weight of an unvisited child is `INFINITE_WEIGHT`, strictly above
//! every weight a visited child can reach.

use vstd::prelude::*;
use vstd::arithmetic::power2::pow2;
use vstd::arithmetic::power2::lemma2_to64;
use vstd::arithmetic::power2::lemma2_to64_rest;
use vstd::arithmetic::power2::lemma_pow2_unfold;

verus! {

/// Fixed-point scale: weights carry sixteen fractional bits.
pub const SCALE: u64 = 65536;

/// `ln(2) * SCALE`, rounded to the nearest integer.
pub const LN2_SCALED: u64 = 45426;

/// The selection weight of an unvisited child: above every finite weight.
pub const INFINITE_WEIGHT: u64 = 0xFFFF_FFFF_FFFF_FFFF;

/// Floor of the base-two logarithm; zero when `x` is zero.
pub open spec fn log2_floor_spec(x: nat) -> nat
    decreases x,
{
    if x < 2 {
        0
    } else {
        1 + log2_floor_spec(x / 2)
    }
}

/// Floor of the square root.
pub open spec fn sqrt_floor_spec(x: nat) -> nat
    decreases x,
{
    if x == 0 {
        0
    } else {
        let r = sqrt_floor_spec((x - 1) as nat);
        if (r + 1) * (r + 1) <= x {
            r + 1
        } else {
            r
        }
    }
}

pub proof fn lemma_log2_floor_bound(x: nat, k: nat)
    requires
        x < pow2(k + 1),
    ensures
        log2_floor_spec(x) <= k,
    decreases x,
{
    if x >= 2 {
        lemma_pow2_unfold(k + 1);
        if k == 0 {
            assert(pow2(1) == 2) by {
                lemma2_to64();
            }
            assert(false);
        }
        assert(x / 2 < pow2(k)) by {
            lemma_pow2_unfold(k);
        }
        lemma_log2_floor_bound(x / 2, (k - 1) as nat);
    }
}

pub proof fn lemma_sqrt_floor_props(x: nat)
    ensures
        sqrt_floor_spec(x) * sqrt_floor_spec(x) <= x,
        x < (sqrt_floor_spec(x) + 1) * (sqrt_floor_spec(x) + 1),
    decreases x,
{
    if x > 0 {
        lemma_sqrt_floor_props((x - 1) as nat);
        let r = sqrt_floor_spec((x - 1) as nat);
        assert(r * r <= (x - 1) as nat);
        assert((r + 1) * (r + 1) > (x - 1) as nat);
        if (r + 1) * (r + 1) <= x {
            // The root steps up by one; x equals the new perfect square.
            assert(sqrt_floor_spec(x) == r + 1);
            assert((r + 1) * (r + 1) < (r + 2) * (r + 2)) by (nonlinear_arith);
            assert(sqrt_floor_spec(x) * sqrt_floor_spec(x) <= x);
            assert(x <= (r + 1) * (r + 1));
            assert((sqrt_floor_spec(x) + 1) * (sqrt_floor_spec(x) + 1) == (r + 2) * (r + 2));
            assert((sqrt_floor_spec(x) + 1) * (sqrt_floor_spec(x) + 1) > x);
        } else {
            assert(sqrt_floor_spec(x) == r);
            assert(sqrt_floor_spec(x) * sqrt_floor_spec(x) <= x);
            assert((sqrt_floor_spec(x) + 1) * (sqrt_floor_spec(x) + 1) > x);
        }
    } else {
        assert(sqrt_floor_spec(0) == 0);
        assert(sqrt_floor_spec(x) * sqrt_floor_spec(x) <= x) by (nonlinear_arith)
            requires
                sqrt_floor_spec(x) == 0,
                x == 0,
        ;
        assert((sqrt_floor_spec(x) + 1) * (sqrt_floor_spec(x) + 1) > x) by (nonlinear_arith)
            requires
                sqrt_floor_spec(x) == 0,
                x == 0,
        ;
    }
}

pub proof fn lemma_sqrt_floor_unique(x: nat, r: nat)
    requires
        r * r <= x,
        x < (r + 1) * (r + 1),
    ensures
        r == sqrt_floor_spec(x),
{
    let s = sqrt_floor_spec(x);
    lemma_sqrt_floor_props(x);
    if r < s {
        assert((r + 1) * (r + 1) <= s * s) by (nonlinear_arith)
            requires
                r + 1 <= s,
        ;
        assert(false);
    }
    if s < r {
        assert((s + 1) * (s + 1) <= r * r) by (nonlinear_arith)
            requires
                s + 1 <= r,
        ;
        assert(false);
    }
}

pub proof fn lemma_sqrt_floor_le(x: nat)
    ensures
        sqrt_floor_spec(x) <= x,
{
    let r = sqrt_floor_spec(x);
    lemma_sqrt_floor_props(x);
    assert(r <= r * r || r == 0) by (nonlinear_arith);
}

/// The scaled UCB1 value of a visited child: the exploitation ratio plus the
/// exploration radius, both carrying `SCALE` fractional precision. The
/// exploration constant `sqrt(2)` enters as the factor two under the root.
pub open spec fn ucb_scaled_spec(score: nat, visits: nat, parent_visits: nat) -> nat
    recommends
        visits >= 1,
{
    let exploit: nat = (score * (SCALE as nat)) / visits;
    let radicand: nat = (2 * (log2_floor_spec(parent_visits + 1) * (LN2_SCALED as nat))
        * (SCALE as nat)) / visits;
    exploit + sqrt_floor_spec(radicand)
}

/// The weight that drives selection: unvisited children take priority over
/// every visited sibling.
pub open spec fn select_weight_spec(score: nat, visits: nat, parent_visits: nat) -> nat {
    if visits == 0 {
        INFINITE_WEIGHT as nat
    } else {
        ucb_scaled_spec(score, visits, parent_visits)
    }
}

/// Every weight reachable from 32-bit statistics is strictly below
/// `INFINITE_WEIGHT`: an unvisited child always outranks its visited siblings.
pub proof fn lemma_finite_weight_below_infinite(score: nat, visits: nat, parent_visits: nat)
    requires
        visits >= 1,
        score < 0x1_0000_0000,
        parent_visits < 0x1_0000_0000,
    ensures
        ucb_scaled_spec(score, visits, parent_visits) < INFINITE_WEIGHT,
{
    let exploit: nat = (score * (SCALE as nat)) / visits;
    let lnp: nat = log2_floor_spec(parent_visits + 1) * (LN2_SCALED as nat);
    let radicand: nat = (2 * lnp * (SCALE as nat)) / visits;
    assert(parent_visits + 1 < pow2(33)) by {
        lemma2_to64_rest();
    }
    lemma_log2_floor_bound(parent_visits + 1, 32);
    assert(lnp <= 32 * (LN2_SCALED as nat));
    assert(exploit <= score * (SCALE as nat)) by (nonlinear_arith)
        requires
            visits >= 1,
            exploit == (score * (SCALE as nat)) / visits,
            score >= 0,
    ;
    assert(radicand <= 2 * lnp * (SCALE as nat)) by (nonlinear_arith)
        requires
            visits >= 1,
            radicand == (2 * lnp * (SCALE as nat)) / visits,
            lnp >= 0,
    ;
    lemma_sqrt_floor_le(radicand);
}

fn log2_floor_u64(x: u64) -> (r: u64)
    requires
        x >= 1,
    ensures
        r == log2_floor_spec(x as nat),
        r <= 63,
{
    proof {
        assert(x < pow2(64)) by {
            lemma2_to64_rest();
        }
        lemma_log2_floor_bound(x as nat, 63);
    }
    let mut v: u64 = x;
    let mut r: u64 = 0;
    while v >= 2
        invariant
            v >= 1,
            log2_floor_spec(x as nat) == r + log2_floor_spec(v as nat),
            log2_floor_spec(x as nat) <= 63,
        decreases v,
    {
        v = v / 2;
        r = r + 1;
    }
    r
}

fn isqrt_u64(x: u64) -> (r: u64)
    ensures
        r == sqrt_floor_spec(x as nat),
{
    if x == 0 {
        return 0;
    }
    let mut lo: u64 = 0;
    let mut hi: u64 = 0x1_0000_0000;
    proof {
        assert((0x1_0000_0000u64 as nat) * (0x1_0000_0000u64 as nat) > x as nat) by (nonlinear_arith)
            requires
                x <= 0xFFFF_FFFF_FFFF_FFFFu64,
        ;
    }
    while lo + 1 < hi
        invariant
            lo < hi,
            hi <= 0x1_0000_0000,
            (lo as nat) * (lo as nat) <= x as nat,
            (x as nat) < (hi as nat) * (hi as nat),
        decreases hi - lo,
    {
        let mid: u64 = lo + (hi - lo) / 2;
        proof {
            assert((mid as nat) * (mid as nat) < 0x1_0000_0000_0000_0000) by (nonlinear_arith)
                requires
                    mid < 0x1_0000_0000u64,
            ;
        }
        if mid * mid <= x {
            lo = mid;
        } else {
            hi = mid;
        }
    }
    proof {
        assert(((lo + 1) as nat) * ((lo + 1) as nat) > x as nat);
        lemma_sqrt_floor_unique(x as nat, lo as nat);
    }
    lo
}

/// The scaled UCB1 value of a visited child, computed exactly as
/// `ucb_scaled_spec` states it.
pub fn ucb_scaled(score: u32, visits: u32, parent_visits: u32) -> (r: u64)
    requires
        visits >= 1,
    ensures
        r == ucb_scaled_spec(score as nat, visits as nat, parent_visits as nat),
        r < INFINITE_WEIGHT,
{
    proof {
        lemma_finite_weight_below_infinite(score as nat, visits as nat, parent_visits as nat);
    }
    let exploit: u64 = (score as u64 * SCALE) / (visits as u64);
    let lnp: u64 = log2_floor_u64(parent_visits as u64 + 1) * LN2_SCALED;
    proof {
        assert(parent_visits as nat + 1 < pow2(33)) by {
            lemma2_to64_rest();
        }
        lemma_log2_floor_bound(parent_visits as nat + 1, 32);
    }
    let radicand: u64 = (2 * lnp * SCALE) / (visits as u64);
    let explore: u64 = isqrt_u64(radicand);
    proof {
        lemma_sqrt_floor_le(radicand as nat);
    }
    exploit + explore
}

/// The selection weight of a child with the given statistics.
pub fn select_weight(score: u32, visits: u32, parent_visits: u32) -> (r: u64)
    ensures
        r == select_weight_spec(score as nat, visits as nat, parent_visits as nat),
{
    if visits == 0 {
        INFINITE_WEIGHT
    } else {
        ucb_scaled(score, visits, parent_visits)
    }
}

/// The position of the first maximum of a sequence; zero on an empty one.
pub open spec fn first_argmax(s: Seq<int>) -> int
    decreases s.len(),
{
    if s.len() <= 1 {
        0
    } else {
        let m = first_argmax(s.drop_last());
        if s.last() > s[m] {
            s.len() - 1
        } else {
            m
        }
    }
}

/// `first_argmax` names a maximal position, and the first such position:
/// everything earlier is strictly below it.
pub proof fn lemma_first_argmax_props(s: Seq<int>)
    requires
        s.len() >= 1,
    ensures
        0 <= first_argmax(s) < s.len(),
        forall|j: int| 0 <= j < s.len() ==> #[trigger] s[j] <= s[first_argmax(s)],
        forall|j: int| 0 <= j < first_argmax(s) ==> #[trigger] s[j] < s[first_argmax(s)],
    decreases s.len(),
{
    if s.len() > 1 {
        lemma_first_argmax_props(s.drop_last());
        let m = first_argmax(s.drop_last());
        assert(forall|j: int| 0 <= j < s.len() - 1 ==> #[trigger] s[j] == s.drop_last()[j]);
        if s.last() > s.drop_last()[m] {
            assert(s[s.len() - 1] == s.last());
        }
    }
}

/// Extending a sequence by one element moves the first maximum to the new
/// position exactly when the new element strictly exceeds the old maximum.
pub proof fn lemma_first_argmax_step(s: Seq<int>, i: int)
    requires
        1 <= i < s.len(),
    ensures
        first_argmax(s.take(i + 1)) == (if s[i] > s.take(i)[first_argmax(s.take(i))] {
            i
        } else {
            first_argmax(s.take(i))
        }),
{
    let t = s.take(i + 1);
    lemma_first_argmax_props(s.take(i));
    let m = first_argmax(s.take(i));
    assert(t.drop_last() =~= s.take(i));
    assert(t.last() == s[i]);
    assert(t[m] == s.take(i)[m]);
}

} // verus!
