//! The per-neuron transfer functions.
//!
//! The ideal transfer functions are real-valued (`max(0, x)`,
//! `2 / (1 + e^(-4.9 x)) - 1`, `tanh(x)`). Over the library's fixed-point
//! numbers the two sigmoid-shaped functions are realised by one rational
//! approximation of `tanh` (exact rational arithmetic, saturating at one
//! unit), and the steeper sigmoid is `tanh` of `2.45 x`, which is the same
//! curve as the ideal formula, since `2 / (1 + e^(-4.9 x)) - 1` is
//! `tanh(2.45 x)`.

use vstd::prelude::*;

use crate::util::{clamp, clamp_spec, SCALE};

verus! {

/// The activation function for each neuron.
#[derive(Clone, Copy, Debug, PartialEq, Eq, Structural)]
pub enum Activation {
    /// max(0, x)
    ReLU,
    /// 2 / (1 + e ^ (-4.9*x)) - 1, realised as tanh(2.45*x)
    Sigmoid,
    /// tanh(x)
    Tanh,
}

/// The fixed-point `tanh` on a non-negative argument: the rational form
/// `m (27 + m^2) / (27 + 9 m^2)` of the unit-scaled argument, saturating at
/// one unit from three units on.
pub open spec fn tanh_mag_spec(m: int) -> int
    recommends
        0 <= m,
{
    if m >= 3 * SCALE {
        SCALE as int
    } else {
        let num = m * (27 * SCALE * SCALE + m * m);
        let den = 27 * (SCALE * SCALE) + 9 * (m * m);
        clamp_spec(0, SCALE as int, num / den)
    }
}

/// The fixed-point `tanh`, extended to negative arguments as an odd
/// function.
pub open spec fn tanh_fixed_spec(x: int) -> int {
    if x < 0 {
        -tanh_mag_spec(-x)
    } else {
        tanh_mag_spec(x)
    }
}

/// The fixed-point sigmoid: `tanh` of `2.45 x`, computed on the magnitude so
/// that the rounding of the `49/20` step is symmetric around zero. Arguments
/// beyond two units are already deep in the saturated tail and are cut off
/// there.
pub open spec fn sigmoid_fixed_spec(x: int) -> int {
    if x < 0 {
        -tanh_mag_spec(clamp_spec(0, 2 * SCALE, -x) * 49 / 20)
    } else {
        tanh_mag_spec(clamp_spec(0, 2 * SCALE, x) * 49 / 20)
    }
}

/// What `Activation::calculate` returns.
pub open spec fn activation_spec(a: Activation, x: int) -> int {
    match a {
        Activation::ReLU => if x < 0 { 0int } else { x },
        Activation::Sigmoid => sigmoid_fixed_spec(x),
        Activation::Tanh => tanh_fixed_spec(x),
    }
}

/// The fixed-point `tanh` on a non-negative argument.
fn tanh_mag(m: i64) -> (r: i64)
    requires
        0 <= m,
    ensures
        r == tanh_mag_spec(m as int),
        0 <= r <= SCALE,
{
    if m >= 3 * SCALE {
        SCALE
    } else {
        assert(m * m <= 2999 * 2999) by (nonlinear_arith)
            requires
                0 <= m <= 2999,
        ;
        let mm: i64 = m * m;
        assert(0 <= m * (27 * SCALE * SCALE + mm) <= 2999 * (27 * 1000 * 1000 + 2999 * 2999))
            by (nonlinear_arith)
            requires
                0 <= m <= 2999,
                0 <= mm <= 2999 * 2999,
                SCALE == 1000,
        ;
        let num: i64 = m * (27 * SCALE * SCALE + mm);
        let den: i64 = 27 * (SCALE * SCALE) + 9 * mm;
        let q: i64 = (num as u64 / den as u64) as i64;
        assert(q == num as int / den as int) by {
            assert(num as u64 as int == num as int);
            assert(den as u64 as int == den as int);
        }
        clamp(0, SCALE, q)
    }
}

/// The fixed-point `tanh`.
fn tanh_fixed(x: i64) -> (r: i64)
    ensures
        r == tanh_fixed_spec(x as int),
        -SCALE <= r <= SCALE,
{
    if x < 0 {
        let m: i64 = if x == i64::MIN { i64::MAX } else { -x };
        if x == i64::MIN {
            assert(tanh_mag_spec(-(x as int)) == SCALE as int);
            assert(tanh_mag_spec(m as int) == SCALE as int);
        }
        -tanh_mag(m)
    } else {
        tanh_mag(x)
    }
}

impl Activation {
    /// Calculates the activation function for the given value.
    pub fn calculate(self, x: i64) -> (r: i64)
        ensures
            r == activation_spec(self, x as int),
    {
        match self {
            Activation::ReLU => if x < 0 { 0 } else { x },
            Activation::Sigmoid => {
                if x < 0 {
                    let m: i64 = if x <= -2 * SCALE { 2 * SCALE } else { -x };
                    assert(m == clamp_spec(0, 2 * SCALE, -(x as int)));
                    let scaled: i64 = ((m * 49) as u64 / 20) as i64;
                    assert(scaled == m as int * 49 / 20);
                    -tanh_mag(scaled)
                } else {
                    let m: i64 = clamp(0, 2 * SCALE, x);
                    let scaled: i64 = ((m * 49) as u64 / 20) as i64;
                    assert(scaled == m as int * 49 / 20);
                    tanh_mag(scaled)
                }
            },
            Activation::Tanh => tanh_fixed(x),
        }
    }
}

impl Default for Activation {
    /// The documented default transfer function.
    fn default() -> (r: Activation)
        ensures
            r == Activation::Sigmoid,
    {
        Activation::Sigmoid
    }
}

/// Every transfer function fixes zero: a node whose weighted input sum is
/// zero contributes zero downstream.
pub proof fn lemma_activation_zero(a: Activation)
    ensures
        activation_spec(a, 0) == 0,
{
}

/// Every transfer function keeps the magnitude of its argument or shrinks
/// it toward the unit saturation band.
pub proof fn lemma_activation_bounded(a: Activation, x: int, bound: int)
    requires
        SCALE <= bound,
        -bound <= x <= bound,
    ensures
        -bound <= activation_spec(a, x) <= bound,
{
}

} // verus!
