//! Elementwise activation functions and their derivatives.
//!
//! The transcendental pieces are computed in fixed point: `exp_neg_val` is a
//! truncated power series refined by repeated squaring, and the sigmoid is
//! built from it and clamped to the open unit interval.

use vstd::prelude::*;
use crate::fixed::{
    SCALE, fx_bounded, bounded_seq, mul_val, tdiv, div_val, fx_div, fx_mul, lemma_mul_val_unit,
};
use vstd::arithmetic::div_mod::{
    lemma_div_pos_is_pos, lemma_div_is_ordered, lemma_div_is_ordered_by_denominator,
    lemma_div_multiples_vanish,
};
use vstd::arithmetic::mul::{lemma_mul_upper_bound, lemma_mul_inequality};

verus! {

/// Truncated series for `e^-t` at small `t`: `1 - t + t^2/2 - t^3/6`,
/// in fixed point, capped at one.
pub open spec fn exp_series_val(t: int) -> int {
    let a = (t * t) / (2 * SCALE as int);
    let b = (((t * t) / (2 * SCALE as int)) * t) / (3 * SCALE as int);
    let raw = SCALE as int - t + a - b;
    if raw > SCALE as int {
        SCALE as int
    } else {
        raw
    }
}

/// `k` fixed-point squarings of `u`.
pub open spec fn sq_iter(u: int, k: nat) -> int
    decreases k,
{
    if k == 0 {
        u
    } else {
        sq_iter(mul_val(u, u), (k - 1) as nat)
    }
}

/// Fixed-point `e^-z` for non-negative `z`: zero past the cut-off, otherwise
/// the series at `z / 64` squared six times.
pub open spec fn exp_neg_val(z: int) -> int {
    if z >= 16 * SCALE as int {
        0
    } else {
        sq_iter(exp_series_val(z / 64), 6)
    }
}

/// Clamp into the open unit interval: positive and strictly below one.
pub open spec fn clamp_unit_open(x: int) -> int {
    if x < 1 {
        1
    } else if x > SCALE as int - 1 {
        SCALE as int - 1
    } else {
        x
    }
}

/// Fixed-point logistic sigmoid `1 / (1 + e^-v)`, clamped to the open unit
/// interval.
pub open spec fn sigmoid_val(v: int) -> int {
    if v >= 0 {
        clamp_unit_open(tdiv(SCALE as int, SCALE as int + exp_neg_val(v)))
    } else {
        clamp_unit_open(tdiv(exp_neg_val(-v), SCALE as int + exp_neg_val(-v)))
    }
}

/// Sigmoid derivative `s * (1 - s)`, computed from the activated value `s`.
pub open spec fn sigmoid_deriv_val(v: int) -> int {
    mul_val(sigmoid_val(v), SCALE as int - sigmoid_val(v))
}

/// Rectifier: `max(v, 0)`.
pub open spec fn relu_val(v: int) -> int {
    if v > 0 {
        v
    } else {
        0
    }
}

/// Rectifier derivative: one for positive inputs, zero otherwise.
pub open spec fn relu_deriv_val(v: int) -> int {
    if v > 0 {
        SCALE as int
    } else {
        0
    }
}

/// Fixed-point `e^-z` for a non-negative scalar `z`.
pub(crate) fn exp_neg(z: i64) -> (r: i64)
    requires
        0 <= z,
    ensures
        r as int == exp_neg_val(z as int),
        0 <= r <= SCALE,
{
    if z >= 16 * SCALE {
        return 0;
    }
    let zu: u64 = z as u64;
    let t: u64 = zu / 64;
    proof {
        lemma_div_pos_is_pos(zu as int, 64);
        lemma_div_is_ordered(zu as int, 0x10000000int, 64);
        lemma_mul_upper_bound(t as int, 0x400000int, t as int, 0x400000int);
    }
    let tt: u64 = t * t;
    let a: u64 = tt / 33554432;
    proof {
        lemma_div_pos_is_pos(tt as int, 33554432);
        lemma_div_is_ordered(tt as int, 0x100000000000int, 33554432);
        lemma_mul_upper_bound(a as int, 0x80000int, t as int, 0x400000int);
    }
    let at: u64 = a * t;
    let b: u64 = at / 50331648;
    proof {
        lemma_div_pos_is_pos(at as int, 50331648);
        // b <= a, since at most a factor of one is applied:
        // a * t <= a * 50331648, so (a * t) / 50331648 <= a.
        lemma_mul_inequality(t as int, 50331648, a as int);
        lemma_div_is_ordered(at as int, a as int * 50331648, 50331648);
        lemma_div_multiples_vanish(a as int, 50331648);
    }
    let raw: u64 = 16777216 + a - t - b;
    let mut u: u64 = if raw > 16777216 {
        16777216
    } else {
        raw
    };
    proof {
        assert(u as int == exp_series_val(z as int / 64));
    }
    let ghost u0: int = u as int;
    let mut k: usize = 0;
    while k < 6
        invariant
            0 <= k <= 6,
            0 <= u <= 16777216,
            sq_iter(u as int, (6 - k) as nat) == sq_iter(u0, 6),
        decreases 6 - k,
    {
        proof {
            lemma_mul_upper_bound(u as int, 16777216int, u as int, 16777216int);
            lemma_mul_val_unit(u as int, u as int);
        }
        let uu: u64 = u * u;
        u = uu / 16777216;
        k = k + 1;
    }
    u as i64
}

/// The sigmoid of one scalar together with its derivative `s * (1 - s)`.
pub fn sigmoid_w_derivation(val: i64) -> (r: (i64, i64))
    requires
        fx_bounded(val),
    ensures
        r.0 as int == sigmoid_val(val as int),
        r.1 as int == sigmoid_deriv_val(val as int),
        0 < r.0 < SCALE,
{
    let s: i64 = sigmoid_exec(val);
    let d: i64 = fx_mul(s, SCALE - s);
    (s, d)
}

/// The sigmoid of one scalar.
fn sigmoid_exec(val: i64) -> (r: i64)
    requires
        fx_bounded(val),
    ensures
        r as int == sigmoid_val(val as int),
        0 < r < SCALE,
{
    if val >= 0 {
        let e: i64 = exp_neg(val);
        let den: i64 = SCALE + e;
        proof {
            lemma_div_pos_is_pos(SCALE as int * SCALE as int, den as int);
            lemma_div_is_ordered_by_denominator(SCALE as int * SCALE as int, SCALE as int, den as int);
            lemma_div_multiples_vanish(SCALE as int, SCALE as int);
            assert(tdiv(SCALE as int, den as int) <= SCALE as int);
            assert(div_val(SCALE as int, den as int) == tdiv(SCALE as int, den as int));
        }
        let s: i64 = fx_div(SCALE, den);
        if s < 1 {
            1
        } else if s > SCALE - 1 {
            SCALE - 1
        } else {
            s
        }
    } else {
        let e: i64 = exp_neg(-val);
        let den: i64 = SCALE + e;
        proof {
            lemma_div_pos_is_pos(e as int * SCALE as int, den as int);
            lemma_mul_inequality(e as int, den as int, SCALE as int);
            lemma_div_is_ordered(e as int * SCALE as int, den as int * SCALE as int, den as int);
            lemma_div_multiples_vanish(SCALE as int, den as int);
            assert(tdiv(e as int, den as int) <= SCALE as int);
            assert(div_val(e as int, den as int) == tdiv(e as int, den as int));
        }
        let s: i64 = fx_div(e, den);
        if s < 1 {
            1
        } else if s > SCALE - 1 {
            SCALE - 1
        } else {
            s
        }
    }
}

/// An elementwise activation: a pure scalar transform together with its
/// derivative, applied across a vector.
pub trait Function: Sized {
    /// The activated value of one scalar.
    spec fn act_val(&self, v: int) -> int;

    /// The local derivative of one scalar.
    spec fn deriv_val(&self, v: int) -> int;

    fn activate(&self, val: &Vec<i64>) -> (out: Vec<i64>)
        requires
            bounded_seq(val@),
        ensures
            out@.len() == val@.len(),
            forall|i: int|
                0 <= i < val@.len() ==> (#[trigger] out@[i]) as int == self.act_val(val@[i] as int),
            bounded_seq(out@),
    ;

    fn d_activate(&self, val: &Vec<i64>) -> (r: (Vec<i64>, Vec<i64>))
        requires
            bounded_seq(val@),
        ensures
            r.0@.len() == val@.len(),
            r.1@.len() == val@.len(),
            forall|i: int|
                0 <= i < val@.len() ==> (#[trigger] r.0@[i]) as int == self.act_val(val@[i] as int),
            forall|i: int|
                0 <= i < val@.len() ==> (#[trigger] r.1@[i]) as int == self.deriv_val(
                    val@[i] as int,
                ),
            bounded_seq(r.0@),
            bounded_seq(r.1@),
    ;
}

/// The rectified linear unit.
pub struct ReLU {}

/// The logistic sigmoid.
pub struct Sigmoid {}

impl Function for ReLU {
    open spec fn act_val(&self, v: int) -> int {
        relu_val(v)
    }

    open spec fn deriv_val(&self, v: int) -> int {
        relu_deriv_val(v)
    }

    fn activate(&self, val: &Vec<i64>) -> (out: Vec<i64>) {
        let mut out: Vec<i64> = Vec::new();
        let mut i: usize = 0;
        while i < val.len()
            invariant
                0 <= i <= val@.len(),
                bounded_seq(val@),
                out@.len() == i,
                forall|j: int|
                    0 <= j < i ==> (#[trigger] out@[j]) as int == relu_val(val@[j] as int),
                bounded_seq(out@),
            decreases val@.len() - i,
        {
            let v: i64 = val[i];
            if v > 0 {
                out.push(v);
            } else {
                out.push(0);
            }
            i = i + 1;
        }
        out
    }

    fn d_activate(&self, val: &Vec<i64>) -> (r: (Vec<i64>, Vec<i64>)) {
        let mut out: Vec<i64> = Vec::new();
        let mut der: Vec<i64> = Vec::new();
        let mut i: usize = 0;
        while i < val.len()
            invariant
                0 <= i <= val@.len(),
                bounded_seq(val@),
                out@.len() == i,
                der@.len() == i,
                forall|j: int|
                    0 <= j < i ==> (#[trigger] out@[j]) as int == relu_val(val@[j] as int),
                forall|j: int|
                    0 <= j < i ==> (#[trigger] der@[j]) as int == relu_deriv_val(val@[j] as int),
                bounded_seq(out@),
                bounded_seq(der@),
            decreases val@.len() - i,
        {
            let v: i64 = val[i];
            if v > 0 {
                out.push(v);
                der.push(SCALE);
            } else {
                out.push(0);
                der.push(0);
            }
            i = i + 1;
        }
        (out, der)
    }
}

impl Function for Sigmoid {
    open spec fn act_val(&self, v: int) -> int {
        sigmoid_val(v)
    }

    open spec fn deriv_val(&self, v: int) -> int {
        sigmoid_deriv_val(v)
    }

    fn activate(&self, val: &Vec<i64>) -> (out: Vec<i64>) {
        let mut out: Vec<i64> = Vec::new();
        let mut i: usize = 0;
        while i < val.len()
            invariant
                0 <= i <= val@.len(),
                bounded_seq(val@),
                out@.len() == i,
                forall|j: int|
                    0 <= j < i ==> (#[trigger] out@[j]) as int == sigmoid_val(val@[j] as int),
                bounded_seq(out@),
            decreases val@.len() - i,
        {
            let v: i64 = val[i];
            let s: i64 = sigmoid_exec(v);
            out.push(s);
            i = i + 1;
        }
        out
    }

    fn d_activate(&self, val: &Vec<i64>) -> (r: (Vec<i64>, Vec<i64>)) {
        let mut out: Vec<i64> = Vec::new();
        let mut der: Vec<i64> = Vec::new();
        let mut i: usize = 0;
        while i < val.len()
            invariant
                0 <= i <= val@.len(),
                bounded_seq(val@),
                out@.len() == i,
                der@.len() == i,
                forall|j: int|
                    0 <= j < i ==> (#[trigger] out@[j]) as int == sigmoid_val(val@[j] as int),
                forall|j: int|
                    0 <= j < i ==> (#[trigger] der@[j]) as int == sigmoid_deriv_val(val@[j] as int),
                bounded_seq(out@),
                bounded_seq(der@),
            decreases val@.len() - i,
        {
            let v: i64 = val[i];
            let sd: (i64, i64) = sigmoid_w_derivation(v);
            out.push(sd.0);
            der.push(sd.1);
            i = i + 1;
        }
        (out, der)
    }
}

/// Repeated fixed-point squaring keeps a value in the unit interval.
proof fn lemma_sq_iter_unit(u: int, k: nat)
    requires
        0 <= u <= SCALE as int,
    ensures
        0 <= sq_iter(u, k) <= SCALE as int,
    decreases k,
{
    if k > 0 {
        lemma_mul_val_unit(u, u);
        lemma_sq_iter_unit(mul_val(u, u), (k - 1) as nat);
    }
}

/// Repeated fixed-point squaring leaves the scalar one fixed.
proof fn lemma_sq_iter_one(k: nat)
    ensures
        sq_iter(SCALE as int, k) == SCALE as int,
    decreases k,
{
    if k > 0 {
        assert(SCALE as int * SCALE as int == 281474976710656int);
        assert(mul_val(SCALE as int, SCALE as int) == SCALE as int);
        lemma_sq_iter_one((k - 1) as nat);
    }
}

/// The fixed-point exponential of a non-positive argument lies in the unit
/// interval.
pub proof fn lemma_exp_neg_val_bounds(z: int)
    requires
        z >= 0,
    ensures
        0 <= exp_neg_val(z) <= SCALE as int,
{
    if z < 16 * SCALE as int {
        let t = z / 64;
        lemma_div_pos_is_pos(z, 64);
        lemma_div_is_ordered(z, 0x10000000int, 64);
        vstd::arithmetic::mul::lemma_mul_nonnegative(t, t);
        lemma_div_pos_is_pos(t * t, 2 * SCALE as int);
        let a = (t * t) / (2 * SCALE as int);
        vstd::arithmetic::mul::lemma_mul_nonnegative(a, t);
        lemma_div_pos_is_pos(a * t, 3 * SCALE as int);
        lemma_mul_inequality(t, 3 * SCALE as int, a);
        lemma_div_is_ordered(a * t, a * (3 * SCALE as int), 3 * SCALE as int);
        lemma_div_multiples_vanish(a, 3 * SCALE as int);
        assert(0 <= exp_series_val(t) <= SCALE as int);
        lemma_sq_iter_unit(exp_series_val(t), 6);
    }
}

/// The fixed-point exponential of zero is one.
pub proof fn lemma_exp_neg_val_zero()
    ensures
        exp_neg_val(0) == SCALE as int,
{
    assert(exp_series_val(0) == SCALE as int);
    lemma_sq_iter_one(6);
}

} // verus!
