//! Multiple-testing adjustment of p-values, on keys.
//!
//! The step-up procedure scales each p-value by the number of tests over
//! its rank and then takes running minima from the largest p-value down.
//! The scaling is a product and a quotient of real values: the caller
//! computes it from `ranks` and hands the scaled values in as keys.

use vstd::prelude::*;
use crate::order::ascending_order;
use crate::order::before_ascending;
use crate::order::is_ascending_order;
use crate::order::lemma_permutation_onto;
use crate::order::rank_of;

verus! {

/// How p-values are adjusted for multiple testing.
#[derive(Debug, Clone, Copy, PartialEq, Eq, Structural)]
pub enum AdjustmentMethod {
    /// The step-up procedure of Benjamini and Hochberg.
    BH,
    /// The p-values are kept as they are.
    Unadjusted,
}

/// `ranks` gives each p-value its place, counted from one, in the stable
/// ascending order.
pub open spec fn is_ranking_of(p_vals: Seq<i64>, ranks: Seq<usize>) -> bool {
    &&& ranks.len() == p_vals.len()
    &&& exists|order: Seq<usize>| #[trigger]
        is_ascending_order(p_vals, order) && forall|r: int|
            0 <= r < order.len() ==> ranks[(#[trigger] order[r]) as int] == r + 1
}

/// The rank of each p-value, counted from one: the smallest p-value has
/// rank one, and equal p-values are ranked in their order.
pub fn ranks(p_vals: &Vec<i64>) -> (ranks: Vec<usize>)
    ensures
        is_ranking_of(p_vals@, ranks@),
        forall|i: int| 0 <= i < ranks@.len() ==> 1 <= (#[trigger] ranks@[i]) <= p_vals@.len(),
{
    let order = ascending_order(p_vals);
    let m = order.len();
    let mut ranks: Vec<usize> = Vec::new();
    let mut i: usize = 0;
    while i < m
        invariant
            i <= m,
            ranks@.len() == i,
            forall|j: int| 0 <= j < i ==> (#[trigger] ranks@[j]) == 0,
        decreases m - i,
    {
        ranks.push(0);
        i += 1;
    }
    let mut r: usize = 0;
    while r < m
        invariant
            r <= m,
            m == order@.len(),
            m == p_vals@.len(),
            ranks@.len() == m,
            is_ascending_order(p_vals@, order@),
            forall|s: int| 0 <= s < r ==> ranks@[(#[trigger] order@[s]) as int] == s + 1,
            forall|i: int| 0 <= i < m ==> (#[trigger] ranks@[i]) <= m,
        decreases m - r,
    {
        let ghost before = ranks@;
        ranks.set(order[r], r + 1);
        proof {
            assert forall|s: int| 0 <= s < r + 1 implies ranks@[(#[trigger] order@[s]) as int] == s
                + 1 by {
                if s < r {
                    assert(order@[s] != order@[r as int]);
                    assert(before[order@[s] as int] == s + 1);
                }
            }
        }
        r += 1;
    }
    proof {
        lemma_permutation_onto(order@, m as nat);
        assert forall|i: int| 0 <= i < ranks@.len() implies 1 <= (#[trigger] ranks@[i]) by {
            let s = rank_of(order@, i);
            assert(ranks@[order@[s] as int] == s + 1);
        }
    }
    ranks
}

/// The smallest of the cap and the scaled values from place `r` of the
/// order on.
pub open spec fn floor_from(scaled: Seq<i64>, order: Seq<usize>, cap: i64, r: int) -> i64
    decreases order.len() - r,
{
    if r < 0 || r >= order.len() {
        cap
    } else {
        let rest = floor_from(scaled, order, cap, r + 1);
        if scaled[order[r] as int] < rest {
            scaled[order[r] as int]
        } else {
            rest
        }
    }
}

/// The running minimum never exceeds the cap, rises with the place, and is
/// the cap or one of the scaled values from its place on.
pub proof fn lemma_floor_from(scaled: Seq<i64>, order: Seq<usize>, cap: i64, r: int, s: int)
    requires
        0 <= r <= s <= order.len(),
    ensures
        floor_from(scaled, order, cap, r) <= floor_from(scaled, order, cap, s) <= cap,
        floor_from(scaled, order, cap, r) == cap || exists|t: int|
            r <= t < order.len() && floor_from(scaled, order, cap, r) == scaled[(
            #[trigger] order[t]) as int],
    decreases order.len() - r,
{
    if r < order.len() {
        if r < s {
            lemma_floor_from(scaled, order, cap, r + 1, s);
        } else {
            lemma_floor_from(scaled, order, cap, r + 1, r + 1);
        }
        let rest = floor_from(scaled, order, cap, r + 1);
        if scaled[order[r] as int] < rest {
            assert(floor_from(scaled, order, cap, r) == scaled[order[r] as int]);
        } else if rest != cap {
            let t = choose|t: int|
                r + 1 <= t < order.len() && rest == scaled[(#[trigger] order[t]) as int];
            assert(r <= t < order.len() && floor_from(scaled, order, cap, r)
                == scaled[order[t] as int]);
        }
    }
}

/// `adjusted` is what the step-up procedure gives: in the stable ascending
/// order of the p-values, each adjusted value is the smallest of the cap and
/// the scaled values from its own rank on.
pub open spec fn is_step_up(
    p_vals: Seq<i64>,
    scaled: Seq<i64>,
    cap: i64,
    adjusted: Seq<i64>,
) -> bool {
    &&& adjusted.len() == p_vals.len()
    &&& exists|order: Seq<usize>| #[trigger]
        is_ascending_order(p_vals, order) && forall|r: int|
            0 <= r < order.len() ==> adjusted[(#[trigger] order[r]) as int] == floor_from(
                scaled,
                order,
                cap,
                r,
            )
}

/// The step-up adjustment of Benjamini and Hochberg. `p_vals` holds the
/// p-values, `scaled` each p-value times the number of tests over its rank,
/// and `cap` the key of the value one. The result is aligned with the
/// input. It never exceeds the cap, it rises with the p-values, and each
/// adjusted value is the cap or the scaled value of a test whose p-value is
/// no smaller.
pub fn benjamini_hochberg(p_vals: &Vec<i64>, scaled: &Vec<i64>, cap: i64) -> (adjusted: Vec<i64>)
    requires
        scaled@.len() == p_vals@.len(),
    ensures
        is_step_up(p_vals@, scaled@, cap, adjusted@),
        forall|i: int| 0 <= i < adjusted@.len() ==> (#[trigger] adjusted@[i]) <= cap,
        forall|i: int, j: int|
            0 <= i < adjusted@.len() && 0 <= j < adjusted@.len() && p_vals@[i] < p_vals@[j] ==> (
            #[trigger] adjusted@[i]) <= (#[trigger] adjusted@[j]),
        forall|i: int|
            0 <= i < adjusted@.len() ==> (#[trigger] adjusted@[i]) == cap || exists|j: int|
                0 <= j < scaled@.len() && adjusted@[i] == (#[trigger] scaled@[j]) && p_vals@[i]
                    <= p_vals@[j],
{
    let order = ascending_order(p_vals);
    let m = order.len();
    let mut adjusted: Vec<i64> = Vec::new();
    let mut i: usize = 0;
    while i < m
        invariant
            i <= m,
            adjusted@.len() == i,
        decreases m - i,
    {
        adjusted.push(cap);
        i += 1;
    }
    let mut prev: i64 = cap;
    let mut r: usize = m;
    while r > 0
        invariant
            r <= m,
            m == order@.len(),
            m == p_vals@.len(),
            m == scaled@.len(),
            adjusted@.len() == m,
            is_ascending_order(p_vals@, order@),
            prev == floor_from(scaled@, order@, cap, r as int),
            forall|s: int|
                r <= s < m ==> adjusted@[(#[trigger] order@[s]) as int] == floor_from(
                    scaled@,
                    order@,
                    cap,
                    s,
                ),
        decreases r,
    {
        r -= 1;
        let idx = order[r];
        let v = scaled[idx];
        if v < prev {
            prev = v;
        }
        let ghost before = adjusted@;
        adjusted.set(idx, prev);
        proof {
            assert forall|s: int| r <= s < m implies adjusted@[(#[trigger] order@[s]) as int]
                == floor_from(scaled@, order@, cap, s) by {
                if s > r {
                    assert(order@[r as int] != order@[s]);
                    assert(before[order@[s] as int] == floor_from(scaled@, order@, cap, s));
                }
            }
        }
    }
    proof {
        lemma_permutation_onto(order@, m as nat);
        assert forall|i: int| 0 <= i < adjusted@.len() implies (#[trigger] adjusted@[i]) <= cap
            && (adjusted@[i] == cap || exists|j: int|
            0 <= j < scaled@.len() && adjusted@[i] == (#[trigger] scaled@[j]) && p_vals@[i]
                <= p_vals@[j]) by {
            let s = rank_of(order@, i);
            assert(adjusted@[order@[s] as int] == floor_from(scaled@, order@, cap, s));
            lemma_floor_from(scaled@, order@, cap, s, s);
            if adjusted@[i] != cap {
                let t = choose|t: int|
                    s <= t < order@.len() && floor_from(scaled@, order@, cap, s) == scaled@[(
                    #[trigger] order@[t]) as int];
                let j = order@[t] as int;
                if s < t {
                    assert(before_ascending(p_vals@, order@[s] as int, order@[t] as int));
                }
                assert(0 <= j < scaled@.len() && adjusted@[i] == scaled@[j] && p_vals@[i]
                    <= p_vals@[j]);
            }
        }
        assert forall|i: int, j: int|
            0 <= i < adjusted@.len() && 0 <= j < adjusted@.len() && p_vals@[i]
                < p_vals@[j] implies (#[trigger] adjusted@[i]) <= (#[trigger] adjusted@[j]) by {
            let s = rank_of(order@, i);
            let t = rank_of(order@, j);
            assert(adjusted@[order@[s] as int] == floor_from(scaled@, order@, cap, s));
            assert(adjusted@[order@[t] as int] == floor_from(scaled@, order@, cap, t));
            if t < s {
                assert(before_ascending(p_vals@, order@[t] as int, order@[s] as int));
            }
            lemma_floor_from(scaled@, order@, cap, s, t);
        }
    }
    adjusted
}

/// An adjusted value is no smaller than its p-value, where no scaled value
/// is smaller than its p-value and no p-value is above the cap.
pub proof fn lemma_adjusted_at_least_raw(
    p_vals: Seq<i64>,
    scaled: Seq<i64>,
    cap: i64,
    adjusted: Seq<i64>,
)
    requires
        adjusted.len() == p_vals.len(),
        scaled.len() == p_vals.len(),
        forall|i: int|
            0 <= i < adjusted.len() ==> (#[trigger] adjusted[i]) == cap || exists|j: int|
                0 <= j < scaled.len() && adjusted[i] == (#[trigger] scaled[j]) && p_vals[i]
                    <= p_vals[j],
        forall|j: int| 0 <= j < p_vals.len() ==> (#[trigger] p_vals[j]) <= scaled[j],
        forall|j: int| 0 <= j < p_vals.len() ==> (#[trigger] p_vals[j]) <= cap,
    ensures
        forall|i: int| 0 <= i < adjusted.len() ==> p_vals[i] <= (#[trigger] adjusted[i]),
{
    assert forall|i: int| 0 <= i < adjusted.len() implies p_vals[i] <= (#[trigger] adjusted[i]) by {
        if adjusted[i] != cap {
            let j = choose|j: int|
                0 <= j < scaled.len() && adjusted[i] == (#[trigger] scaled[j]) && p_vals[i]
                    <= p_vals[j];
            assert(p_vals[j] <= scaled[j]);
        }
    }
}

/// Among equal p-values the scaled value does not rise from one place to a
/// later one. Scaling by the number of tests over the rank has this
/// property, since equal p-values are ranked in the order of their places.
pub open spec fn ties_fall(p_vals: Seq<i64>, scaled: Seq<i64>) -> bool {
    forall|i: int, j: int|
        0 <= i < j < p_vals.len() && p_vals[i] == p_vals[j] ==> (#[trigger] scaled[i]) >= (
        #[trigger] scaled[j])
}

/// Within a run of equal p-values the running minimum is the same at every
/// rank, where the scaled values of equal p-values do not rise.
proof fn lemma_floor_tie(
    p_vals: Seq<i64>,
    scaled: Seq<i64>,
    order: Seq<usize>,
    cap: i64,
    t: int,
    s: int,
)
    requires
        scaled.len() == p_vals.len(),
        is_ascending_order(p_vals, order),
        ties_fall(p_vals, scaled),
        0 <= t <= s < order.len(),
        p_vals[order[t] as int] == p_vals[order[s] as int],
    ensures
        floor_from(scaled, order, cap, t) == floor_from(scaled, order, cap, s),
    decreases s - t,
{
    if t < s {
        assert(before_ascending(p_vals, order[t] as int, order[s] as int));
        assert(order[t] < order[s]);
        if t + 1 < s {
            assert(before_ascending(p_vals, order[t] as int, order[t + 1] as int));
            assert(before_ascending(p_vals, order[t + 1] as int, order[s] as int));
        }
        lemma_floor_tie(p_vals, scaled, order, cap, t + 1, s);
        assert(scaled[order[t] as int] >= scaled[order[s] as int]);
        assert(floor_from(scaled, order, cap, s) <= scaled[order[s] as int]);
    }
}

/// The adjusted values rise with the p-values, equal p-values included,
/// where the scaled values of equal p-values do not rise.
pub proof fn lemma_adjusted_monotone(
    p_vals: Seq<i64>,
    scaled: Seq<i64>,
    cap: i64,
    adjusted: Seq<i64>,
)
    requires
        scaled.len() == p_vals.len(),
        is_step_up(p_vals, scaled, cap, adjusted),
        ties_fall(p_vals, scaled),
    ensures
        forall|i: int, j: int|
            0 <= i < adjusted.len() && 0 <= j < adjusted.len() && p_vals[i] <= p_vals[j] ==> (
            #[trigger] adjusted[i]) <= (#[trigger] adjusted[j]),
{
    let order = choose|order: Seq<usize>| #[trigger]
        is_ascending_order(p_vals, order) && forall|r: int|
            0 <= r < order.len() ==> adjusted[(#[trigger] order[r]) as int] == floor_from(
                scaled,
                order,
                cap,
                r,
            );
    lemma_permutation_onto(order, p_vals.len());
    assert forall|i: int, j: int|
        0 <= i < adjusted.len() && 0 <= j < adjusted.len() && p_vals[i] <= p_vals[j] implies (
    #[trigger] adjusted[i]) <= (#[trigger] adjusted[j]) by {
        let s = rank_of(order, i);
        let t = rank_of(order, j);
        assert(adjusted[order[s] as int] == floor_from(scaled, order, cap, s));
        assert(adjusted[order[t] as int] == floor_from(scaled, order, cap, t));
        if s <= t {
            lemma_floor_from(scaled, order, cap, s, t);
        } else {
            assert(before_ascending(p_vals, order[t] as int, order[s] as int));
            lemma_floor_tie(p_vals, scaled, order, cap, t, s);
        }
    }
}

/// Adjusts p-values for multiple testing. With `BH` the result is the
/// step-up adjustment of the scaled values under the cap; otherwise it is
/// the p-values themselves.
pub fn adjust(
    p_vals: &Vec<i64>,
    scaled: &Vec<i64>,
    cap: i64,
    method: AdjustmentMethod,
) -> (adjusted: Vec<i64>)
    requires
        scaled@.len() == p_vals@.len(),
    ensures
        adjusted@.len() == p_vals@.len(),
        method == AdjustmentMethod::BH ==> is_step_up(p_vals@, scaled@, cap, adjusted@),
        method == AdjustmentMethod::Unadjusted ==> adjusted@ == p_vals@,
{
    match method {
        AdjustmentMethod::BH => benjamini_hochberg(p_vals, scaled, cap),
        AdjustmentMethod::Unadjusted => p_vals.clone(),
    }
}

} // verus!
