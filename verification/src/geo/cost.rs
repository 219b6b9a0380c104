//! The cost of stepping from one tile to the next across the flow field.

use vstd::prelude::*;

verus! {

/// Length of a unit vector in fixed point, and the number of cost units in
/// a cost of one.
pub const UNIT: i32 = 10_000;

/// The least cost of a step. It is positive, so every further step costs.
pub const MIN_COST: u64 = 1;

/// The greatest cost of a step: what two opposed unit vectors give.
pub const MAX_COST: u64 = 36_000;

/// Dot product of two directions, in units of `UNIT` squared.
pub open spec fn dot(a: (i32, i32), b: (i32, i32)) -> int {
    a.0 * b.0 + a.1 * b.1
}

/// Cost of a step between tiles whose directions have the dot product `d`:
/// the lesser of `4 (0.85 - d)` and `1.5 (1.4 - d)`, rounded down to whole
/// cost units and kept within `MIN_COST` and `MAX_COST`.
#[verifier::opaque]
pub open spec fn cost_of_dot(d: int) -> int {
    let steep = 68_000 * UNIT - 8 * d;
    let flat = 42_000 * UNIT - 3 * d;
    let least = if steep < flat { steep } else { flat };
    let whole = least / (2 * UNIT);
    if whole < MIN_COST {
        MIN_COST as int
    } else if whole > MAX_COST {
        MAX_COST as int
    } else {
        whole
    }
}

/// Cost of a step between tiles with the directions `a` and `b`.
pub open spec fn step_cost(a: (i32, i32), b: (i32, i32)) -> int {
    cost_of_dot(dot(a, b))
}

/// The cost never rises as the directions align: a greater dot product
/// costs no more. It is the same in both directions of a step.
pub proof fn lemma_cost_falls(d: int, e: int)
    requires
        d <= e,
    ensures
        cost_of_dot(e) <= cost_of_dot(d),
        MIN_COST <= cost_of_dot(d) <= MAX_COST,
{
    reveal(cost_of_dot);
    let least_d = if 68_000 * UNIT - 8 * d < 42_000 * UNIT - 3 * d {
        68_000 * UNIT - 8 * d
    } else {
        42_000 * UNIT - 3 * d
    };
    let least_e = if 68_000 * UNIT - 8 * e < 42_000 * UNIT - 3 * e {
        68_000 * UNIT - 8 * e
    } else {
        42_000 * UNIT - 3 * e
    };
    assert(least_e <= least_d);
    vstd::arithmetic::div_mod::lemma_div_is_ordered(least_e, least_d, 2 * UNIT);
}

proof fn lemma_product_bound(v: int, w: int)
    requires
        -0x8000_0000 <= v <= 0x8000_0000,
        -0x8000_0000 <= w <= 0x8000_0000,
    ensures
        -0x4000_0000_0000_0000 <= v * w <= 0x4000_0000_0000_0000,
{
    assert(-0x4000_0000_0000_0000 <= v * w <= 0x4000_0000_0000_0000) by (nonlinear_arith)
        requires
            -0x8000_0000 <= v <= 0x8000_0000,
            -0x8000_0000 <= w <= 0x8000_0000,
    ;
}

/// Cost of a step between tiles with the directions `a` and `b`.
pub fn edge_cost(a: (i32, i32), b: (i32, i32)) -> (cost: u64)
    ensures
        cost == step_cost(a, b),
        cost == step_cost(b, a),
        MIN_COST <= cost <= MAX_COST,
{
    reveal(cost_of_dot);
    assert(dot(a, b) == dot(b, a)) by (nonlinear_arith);
    proof {
        lemma_product_bound(a.0 as int, b.0 as int);
        lemma_product_bound(a.1 as int, b.1 as int);
    }
    let d: i128 = a.0 as i128 * b.0 as i128 + a.1 as i128 * b.1 as i128;
    let steep: i128 = 68_000 * (UNIT as i128) - 8 * d;
    let flat: i128 = 42_000 * (UNIT as i128) - 3 * d;
    let least: i128 = if steep < flat { steep } else { flat };
    let span: i128 = 2 * (UNIT as i128);
    if least < span {
        assert((least as int) / (2 * UNIT) < 1) by {
            if least >= 0 {
                vstd::arithmetic::div_mod::lemma_div_is_ordered(least as int, 2 * UNIT - 1, 2 * UNIT);
            } else {
                vstd::arithmetic::div_mod::lemma_div_is_ordered(least as int, 0, 2 * UNIT);
            }
        }
        MIN_COST
    } else {
        let whole: i128 = least / span;
        if whole > MAX_COST as i128 {
            MAX_COST
        } else {
            assert(whole >= 1) by {
                vstd::arithmetic::div_mod::lemma_div_is_ordered(2 * UNIT, least as int, 2 * UNIT);
            }
            whole as u64
        }
    }
}

} // verus!
