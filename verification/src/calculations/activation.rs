//! The two activation functions on fixed-point numbers.

use crate::data_structures::pseudo_float::{PseudoFloat, SCALE};
use crate::neat::config::ActivationFunction;
use vstd::prelude::*;

verus! {

/// One over e, in units, rounded down.
pub const INV_E: i64 = 367_879_441;

/// From this many units on, e to the minus `t` counts as zero: forty.
pub const EXP_LIMIT: i64 = 40_000_000_000;

/// How many terms of the series for e to the minus `f` are summed.
pub const EXP_TERMS: i64 = 12;

/// The sum where it is positive, else zero.
pub open spec fn relu_of(x: int) -> int {
    if x <= 0 {
        0
    } else {
        x
    }
}

/// The series `1 - f/k * (1 - f/(k+1) * (1 - ...))` cut off behind the
/// term `EXP_TERMS`, every quotient rounded down. From `k = 1` it is e to
/// the minus `f`, for `f` below one.
pub open spec fn exp_tail(fraction: int, k: int) -> int
    decreases EXP_TERMS + 1 - k,
{
    if k > EXP_TERMS || k < 1 {
        SCALE as int
    } else {
        SCALE - fraction * exp_tail(fraction, k + 1) / (k * SCALE)
    }
}

/// One over e to the power `n`, every product rounded down.
pub open spec fn inv_e_power(n: int) -> int
    decreases n,
{
    if n <= 0 {
        SCALE as int
    } else {
        inv_e_power(n - 1) * INV_E / (SCALE as int)
    }
}

/// e to the minus `t`, in units, for `t` units that are not negative:
/// the power of one over e for the whole part of `t` times the series for
/// its fraction, and zero from forty on.
pub open spec fn exp_neg(t: int) -> int {
    if t >= EXP_LIMIT {
        0
    } else {
        exp_tail(t % (SCALE as int), 1) * inv_e_power(t / (SCALE as int)) / (SCALE as int)
    }
}

/// One over one plus e to the minus `x`, in units. For negative `x` it
/// is one minus the value at minus `x`.
pub open spec fn sigmoid_of(x: int) -> int {
    if x >= 0 {
        SCALE * SCALE / (SCALE + exp_neg(x))
    } else {
        SCALE - SCALE * SCALE / (SCALE + exp_neg(-x))
    }
}

/// What the activation function `activation` makes of the sum `x`.
pub open spec fn activation_of(activation: ActivationFunction, x: int) -> int {
    match activation {
        ActivationFunction::Relu => relu_of(x),
        ActivationFunction::Sigmoid => sigmoid_of(x),
    }
}

/// The series lies between zero and one.
pub proof fn lemma_exp_tail_bounds(fraction: int, k: int)
    requires
        0 <= fraction < SCALE,
        1 <= k <= EXP_TERMS + 1,
    ensures
        0 <= exp_tail(fraction, k) <= SCALE,
    decreases EXP_TERMS + 1 - k,
{
    if k <= EXP_TERMS {
        lemma_exp_tail_bounds(fraction, k + 1);
        let next = exp_tail(fraction, k + 1);
        assert(0 <= fraction * next / (k * SCALE) <= SCALE) by (nonlinear_arith)
            requires
                0 <= fraction < SCALE,
                0 <= next <= SCALE,
                1 <= k,
                SCALE == 1_000_000_000,
        ;
    }
}

/// The powers of one over e lie between zero and one.
pub proof fn lemma_inv_e_power_bounds(n: int)
    ensures
        0 <= inv_e_power(n) <= SCALE,
    decreases n,
{
    if n > 0 {
        lemma_inv_e_power_bounds(n - 1);
        let before = inv_e_power(n - 1);
        assert(0 <= before * INV_E / (SCALE as int) <= SCALE) by (nonlinear_arith)
            requires
                0 <= before <= SCALE,
                INV_E == 367_879_441,
                SCALE == 1_000_000_000,
        ;
    }
}

/// e to the minus `t` lies between zero and one.
pub proof fn lemma_exp_neg_bounds(t: int)
    requires
        t >= 0,
    ensures
        0 <= exp_neg(t) <= SCALE,
{
    if t < EXP_LIMIT {
        let fraction = t % (SCALE as int);
        let whole = t / (SCALE as int);
        lemma_exp_tail_bounds(fraction, 1);
        lemma_inv_e_power_bounds(whole);
        let a = exp_tail(fraction, 1);
        let b = inv_e_power(whole);
        assert(0 <= a * b / (SCALE as int) <= SCALE) by (nonlinear_arith)
            requires
                0 <= a <= SCALE,
                0 <= b <= SCALE,
                SCALE == 1_000_000_000,
        ;
    }
}

/// The sigmoid lies between zero and one, and is a half at zero.
pub proof fn lemma_sigmoid_bounds(x: int)
    ensures
        0 <= sigmoid_of(x) <= SCALE,
        sigmoid_of(0) == SCALE / 2,
{
    let t = if x >= 0 {
        x
    } else {
        -x
    };
    lemma_exp_neg_bounds(t);
    let e = exp_neg(t);
    assert(0 <= SCALE * SCALE / (SCALE + e) <= SCALE) by (nonlinear_arith)
        requires
            0 <= e <= SCALE,
            SCALE == 1_000_000_000,
    ;
    lemma_zero_exponent();
}

/// e to the minus zero is one.
proof fn lemma_zero_exponent()
    ensures
        exp_neg(0) == SCALE,
        sigmoid_of(0) == SCALE / 2,
{
    lemma_exp_tail_zero(1);
    assert(inv_e_power(0) == SCALE);
    assert(exp_tail(0, 1) == SCALE);
    assert((SCALE as int) * (SCALE as int) / (SCALE as int) == SCALE) by (nonlinear_arith)
        requires
            SCALE == 1_000_000_000,
    ;
    assert(SCALE * SCALE / (SCALE + SCALE) == SCALE / 2) by (nonlinear_arith)
        requires
            SCALE == 1_000_000_000,
    ;
}

/// The series at zero is one.
proof fn lemma_exp_tail_zero(k: int)
    requires
        1 <= k <= EXP_TERMS + 1,
    ensures
        exp_tail(0, k) == SCALE,
    decreases EXP_TERMS + 1 - k,
{
    if k <= EXP_TERMS {
        lemma_exp_tail_zero(k + 1);
        assert(0 * (SCALE as int) / (k * SCALE) == 0) by (nonlinear_arith)
            requires
                k >= 1,
                SCALE == 1_000_000_000,
        ;
    }
}

/// The sum where it is positive, else zero.
pub fn relu(x: PseudoFloat) -> (r: PseudoFloat)
    ensures
        r@ == relu_of(x@),
{
    if x.units <= 0 {
        PseudoFloat::zero()
    } else {
        x
    }
}

/// e to the minus `t`, for `t` units that are not negative: see
/// [`exp_neg`].
pub fn exp_negative(t: i64) -> (e: i64)
    requires
        t >= 0,
    ensures
        e == exp_neg(t as int),
        0 <= e <= SCALE,
{
    proof {
        lemma_exp_neg_bounds(t as int);
    }
    if t >= EXP_LIMIT {
        return 0;
    }
    let fraction: i64 = t % SCALE;
    let whole: i64 = t / SCALE;
    let mut series: i64 = SCALE;
    let mut k: i64 = EXP_TERMS;
    while k >= 1
        invariant
            0 <= k <= EXP_TERMS,
            0 <= fraction < SCALE,
            series == exp_tail(fraction as int, k + 1),
            0 <= series <= SCALE,
        decreases k,
    {
        proof {
            lemma_exp_tail_bounds(fraction as int, k as int);
            assert(0 <= fraction * series <= 1_000_000_000_000_000_000) by (nonlinear_arith)
                requires
                    0 <= fraction < 1_000_000_000,
                    0 <= series <= 1_000_000_000,
            ;
        }
        series = SCALE - fraction * series / (k * SCALE);
        k -= 1;
    }
    let mut power: i64 = SCALE;
    let mut n: i64 = 0;
    while n < whole
        invariant
            0 <= n <= whole,
            power == inv_e_power(n as int),
            0 <= power <= SCALE,
        decreases whole - n,
    {
        proof {
            lemma_inv_e_power_bounds(n + 1);
            assert(0 <= power * INV_E <= 1_000_000_000_000_000_000) by (nonlinear_arith)
                requires
                    0 <= power <= 1_000_000_000,
                    INV_E == 367_879_441,
            ;
        }
        power = power * INV_E / SCALE;
        n += 1;
    }
    proof {
        assert(0 <= series * power <= 1_000_000_000_000_000_000) by (nonlinear_arith)
            requires
                0 <= series <= 1_000_000_000,
                0 <= power <= 1_000_000_000,
        ;
    }
    series * power / SCALE
}

/// One over one plus e to the minus `x`: see [`sigmoid_of`].
pub fn sigmoid(x: PseudoFloat) -> (r: PseudoFloat)
    ensures
        r@ == sigmoid_of(x@),
        0 <= r@ <= SCALE,
{
    proof {
        lemma_sigmoid_bounds(x@);
    }
    if x.units >= 0 {
        let e = exp_negative(x.units);
        PseudoFloat::new(SCALE * SCALE / (SCALE + e))
    } else if x.units <= -EXP_LIMIT {
        assert(exp_neg(-x@) == 0);
        assert((SCALE as int) * (SCALE as int) / (SCALE as int) == SCALE) by (nonlinear_arith)
            requires
                SCALE == 1_000_000_000,
        ;
        PseudoFloat::zero()
    } else {
        let e = exp_negative(-x.units);
        PseudoFloat::new(SCALE - SCALE * SCALE / (SCALE + e))
    }
}

/// What the activation function `activation` makes of the sum `x`.
pub fn activate(activation: ActivationFunction, x: PseudoFloat) -> (r: PseudoFloat)
    ensures
        r@ == activation_of(activation, x@),
{
    match activation {
        ActivationFunction::Relu => relu(x),
        ActivationFunction::Sigmoid => sigmoid(x),
    }
}

} // verus!
