//! Layers and the sequential network container.
//!
//! A layer is a transform over fixed-point vectors with a forward evaluation,
//! a backward (chain-rule) error propagation, a parameter-gradient
//! computation, and an in-place parameter update. The concrete variants are
//! `Dense`, `Bias`, `Activation` and `Softmax`.

use vstd::prelude::*;
use crate::fixed::{
    FX_MAX, SCALE, fx_bounded, bounded_seq, add_val, sub_val, mul_val, div_val, tdiv,
    fx_add, fx_sub, fx_mul, fx_div,
};
use crate::func::{Function, ReLU, Sigmoid, exp_neg, exp_neg_val};
use vstd::arithmetic::mul::lemma_mul_inequality;
use vstd::arithmetic::div_mod::{
    lemma_div_pos_is_pos, lemma_div_is_ordered, lemma_div_multiples_vanish,
    lemma_fundamental_div_mod_converse,
};

verus! {

/// The error a network operation reports when vector widths do not fit
/// together.
#[derive(Clone, Copy, PartialEq, Eq, Structural, Debug)]
pub enum NetError {
    ShapeMismatch,
}

/// Index of the weight from input `i` to output `o` in the input-major flat
/// buffer of a layer with `m` outputs.
pub open spec fn wix(i: int, o: int, m: int) -> int {
    i * m + o
}

/// An input-major flat index stays inside the buffer.
proof fn lemma_wix_bound(i: int, o: int, m: int, n: int)
    by (nonlinear_arith)
    requires
        0 <= i < n,
        0 <= o < m,
    ensures
        0 <= i * m + o < n * m,
{
}

/// Splitting one more input-major row off a flat buffer.
proof fn lemma_mul_succ(i: int, m: int)
    by (nonlinear_arith)
    ensures
        (i + 1) * m == i * m + m,
{
}

/// Weighted sum feeding output `o` of a dense layer: the saturating
/// fixed-point fold of `x[i] * w[i * m + o]` over the first `n` inputs.
pub open spec fn dense_dot(x: Seq<i64>, w: Seq<i64>, o: int, m: int, n: int) -> int
    decreases n,
{
    if n <= 0 {
        0
    } else {
        add_val(dense_dot(x, w, o, m, n - 1), mul_val(x[n - 1] as int, w[wix(n - 1, o, m)] as int))
    }
}

/// Forward output of a dense layer.
pub open spec fn dense_ff_val(x: Seq<i64>, w: Seq<i64>, in_num: int, out_num: int) -> Seq<i64> {
    Seq::new(out_num as nat, |o: int| dense_dot(x, w, o, out_num, in_num) as i64)
}

/// Error propagated to input `i` of a dense layer: the saturating fold of
/// `w[i * m + o] * e[o]` over the `m` outputs.
pub open spec fn dense_bp_dot(w: Seq<i64>, e: Seq<i64>, i: int, m: int, k: int) -> int
    decreases k,
{
    if k <= 0 {
        0
    } else {
        add_val(dense_bp_dot(w, e, i, m, k - 1), mul_val(w[wix(i, k - 1, m)] as int, e[k - 1] as int))
    }
}

/// Upstream error of a dense layer.
pub open spec fn dense_bp_val(w: Seq<i64>, e: Seq<i64>, in_num: int, out_num: int) -> Seq<i64> {
    Seq::new(in_num as nat, |i: int| dense_bp_dot(w, e, i, out_num, out_num) as i64)
}

/// Parameter gradient of a dense layer, in the same input-major layout as the
/// weight storage: the entry for weight `w[i * m + o]` is `e[o] * x[i]`.
pub open spec fn dense_grad_val(x: Seq<i64>, e: Seq<i64>, in_num: int, out_num: int) -> Seq<i64> {
    Seq::new(
        (in_num * out_num) as nat,
        |k: int| mul_val(e[k % out_num] as int, x[k / out_num] as int) as i64,
    )
}

/// Elementwise saturating difference of a parameter buffer and a step vector.
pub open spec fn stepped_params(w: Seq<i64>, s: Seq<i64>) -> Seq<i64> {
    Seq::new(w.len(), |k: int| sub_val(w[k] as int, s[k] as int) as i64)
}

/// A composable network layer over fixed-point vectors.
///
/// `feed_forward` evaluates the layer; `d_feed_forward` additionally returns
/// the derivative cache the backward pass needs; `back_propagate` maps the
/// error with respect to the output to the error with respect to the input;
/// `calc_err` computes the gradient with respect to the layer's own
/// parameters; `step` subtracts a delta vector from the parameters in place.
pub trait Layer: Sized {
    /// Internal well-formedness: buffer shapes agree and all parameters are
    /// valid scalars.
    spec fn wf(&self) -> bool;

    /// Number of scalar parameters.
    spec fn spec_param_num(&self) -> nat;

    /// Whether the layer accepts an input of width `n`.
    spec fn accepts(&self, n: nat) -> bool;

    /// Output width for an input of width `n`.
    spec fn out_len(&self, n: nat) -> nat;

    /// Forward evaluation.
    spec fn ff_val(&self, x: Seq<i64>) -> Seq<i64>;

    /// Derivative cache recorded by the forward-with-cache pass.
    spec fn cache_val(&self, x: Seq<i64>) -> Seq<i64>;

    /// Shapes on which `back_propagate` is defined.
    spec fn bp_ok(&self, e: Seq<i64>, c: Seq<i64>) -> bool;

    /// Upstream error from downstream error and cache.
    spec fn bp_val(&self, e: Seq<i64>, c: Seq<i64>) -> Seq<i64>;

    /// Shapes on which `calc_err` is defined.
    spec fn grad_ok(&self, e: Seq<i64>, x: Seq<i64>) -> bool;

    /// Parameter gradient from downstream error and the layer's input.
    spec fn grad_val(&self, e: Seq<i64>, x: Seq<i64>) -> Seq<i64>;

    /// How a layer after `step(s)` relates to the layer before it.
    spec fn step_rel(&self, s: Seq<i64>, next: Self) -> bool;

    fn param_num(&self) -> (n: usize)
        requires
            self.wf(),
        ensures
            n as nat == self.spec_param_num(),
    ;

    fn feed_forward(&self, input: &Vec<i64>) -> (out: Vec<i64>)
        requires
            self.wf(),
            bounded_seq(input@),
            self.accepts(input@.len() as nat),
        ensures
            out@ == self.ff_val(input@),
            out@.len() == self.out_len(input@.len() as nat),
            bounded_seq(out@),
    ;

    fn d_feed_forward(&self, input: &Vec<i64>) -> (r: (Vec<i64>, Vec<i64>))
        requires
            self.wf(),
            bounded_seq(input@),
            self.accepts(input@.len() as nat),
        ensures
            r.0@ == self.ff_val(input@),
            r.0@.len() == self.out_len(input@.len() as nat),
            bounded_seq(r.0@),
            r.1@ == self.cache_val(input@),
            bounded_seq(r.1@),
    ;

    fn back_propagate(&self, out_err: &Vec<i64>, cache: &Vec<i64>) -> (r: Vec<i64>)
        requires
            self.wf(),
            bounded_seq(out_err@),
            bounded_seq(cache@),
            self.bp_ok(out_err@, cache@),
        ensures
            r@ == self.bp_val(out_err@, cache@),
            bounded_seq(r@),
    ;

    fn calc_err(&self, prev_err: &Vec<i64>, input: &Vec<i64>) -> (r: Vec<i64>)
        requires
            self.wf(),
            bounded_seq(prev_err@),
            bounded_seq(input@),
            self.grad_ok(prev_err@, input@),
        ensures
            r@ == self.grad_val(prev_err@, input@),
            r@.len() == self.spec_param_num(),
            bounded_seq(r@),
    ;

    fn step(&mut self, step: &Vec<i64>)
        requires
            old(self).wf(),
            bounded_seq(step@),
            step@.len() == old(self).spec_param_num(),
        ensures
            old(self).step_rel(step@, *final(self)),
            final(self).wf(),
    ;
}

/// A fully connected layer: a flat input-major weight buffer of
/// `in_num * out_num` scalars.
pub struct Dense {
    pub connections: Vec<i64>,
    pub in_num: usize,
    pub out_num: usize,
}

impl Layer for Dense {
    open spec fn wf(&self) -> bool {
        &&& self.connections@.len() == self.in_num as int * self.out_num as int
        &&& bounded_seq(self.connections@)
    }

    open spec fn spec_param_num(&self) -> nat {
        self.connections@.len()
    }

    open spec fn accepts(&self, n: nat) -> bool {
        n == self.in_num as nat
    }

    open spec fn out_len(&self, n: nat) -> nat {
        self.out_num as nat
    }

    open spec fn ff_val(&self, x: Seq<i64>) -> Seq<i64> {
        dense_ff_val(x, self.connections@, self.in_num as int, self.out_num as int)
    }

    open spec fn cache_val(&self, x: Seq<i64>) -> Seq<i64> {
        Seq::empty()
    }

    open spec fn bp_ok(&self, e: Seq<i64>, c: Seq<i64>) -> bool {
        e.len() == self.out_num as nat
    }

    open spec fn bp_val(&self, e: Seq<i64>, c: Seq<i64>) -> Seq<i64> {
        dense_bp_val(self.connections@, e, self.in_num as int, self.out_num as int)
    }

    open spec fn grad_ok(&self, e: Seq<i64>, x: Seq<i64>) -> bool {
        e.len() == self.out_num as nat && x.len() == self.in_num as nat
    }

    open spec fn grad_val(&self, e: Seq<i64>, x: Seq<i64>) -> Seq<i64> {
        dense_grad_val(x, e, self.in_num as int, self.out_num as int)
    }

    open spec fn step_rel(&self, s: Seq<i64>, next: Self) -> bool {
        &&& next.in_num == self.in_num
        &&& next.out_num == self.out_num
        &&& next.connections@ == stepped_params(self.connections@, s)
    }

    fn param_num(&self) -> (n: usize) {
        self.connections.len()
    }

    fn feed_forward(&self, input: &Vec<i64>) -> (out: Vec<i64>) {
        let m: usize = self.out_num;
        let len: usize = self.connections.len();
        let mut out: Vec<i64> = Vec::new();
        let mut o: usize = 0;
        while o < m
            invariant
                0 <= o <= m,
                m == self.out_num,
                len == self.connections@.len(),
                self.wf(),
                bounded_seq(input@),
                input@.len() == self.in_num,
                out@.len() == o,
                forall|p: int|
                    0 <= p < o ==> (#[trigger] out@[p]) as int == dense_dot(
                        input@,
                        self.connections@,
                        p,
                        m as int,
                        self.in_num as int,
                    ),
                bounded_seq(out@),
            decreases m - o,
        {
            let mut acc: i64 = 0;
            let mut i: usize = 0;
            while i < self.in_num
                invariant
                    0 <= i <= self.in_num,
                    0 <= o < m,
                    m == self.out_num,
                    len == self.connections@.len(),
                    self.wf(),
                    bounded_seq(input@),
                    input@.len() == self.in_num,
                    acc as int == dense_dot(input@, self.connections@, o as int, m as int, i as int),
                    fx_bounded(acc),
                decreases self.in_num - i,
            {
                proof {
                    lemma_wix_bound(i as int, o as int, m as int, self.in_num as int);
                }
                let w: i64 = self.connections[i * m + o];
                acc = fx_add(acc, fx_mul(input[i], w));
                i = i + 1;
            }
            out.push(acc);
            o = o + 1;
        }
        proof {
            assert(out@ =~= self.ff_val(input@));
        }
        out
    }

    fn d_feed_forward(&self, input: &Vec<i64>) -> (r: (Vec<i64>, Vec<i64>)) {
        let out: Vec<i64> = self.feed_forward(input);
        let cache: Vec<i64> = Vec::new();
        proof {
            assert(cache@ =~= self.cache_val(input@));
        }
        (out, cache)
    }

    fn back_propagate(&self, out_err: &Vec<i64>, cache: &Vec<i64>) -> (r: Vec<i64>) {
        let m: usize = self.out_num;
        let n: usize = self.in_num;
        let len: usize = self.connections.len();
        let mut err: Vec<i64> = Vec::new();
        let mut i: usize = 0;
        while i < n
            invariant
                0 <= i <= n,
                n == self.in_num,
                m == self.out_num,
                len == self.connections@.len(),
                self.wf(),
                bounded_seq(out_err@),
                out_err@.len() == m,
                err@.len() == i,
                forall|p: int|
                    0 <= p < i ==> (#[trigger] err@[p]) as int == dense_bp_dot(
                        self.connections@,
                        out_err@,
                        p,
                        m as int,
                        m as int,
                    ),
                bounded_seq(err@),
            decreases n - i,
        {
            let mut acc: i64 = 0;
            let mut o: usize = 0;
            while o < m
                invariant
                    0 <= o <= m,
                    0 <= i < n,
                    n == self.in_num,
                    m == self.out_num,
                    len == self.connections@.len(),
                    self.wf(),
                    bounded_seq(out_err@),
                    out_err@.len() == m,
                    acc as int == dense_bp_dot(self.connections@, out_err@, i as int, m as int, o as int),
                    fx_bounded(acc),
                decreases m - o,
            {
                proof {
                    lemma_wix_bound(i as int, o as int, m as int, n as int);
                }
                let w: i64 = self.connections[i * m + o];
                acc = fx_add(acc, fx_mul(w, out_err[o]));
                o = o + 1;
            }
            err.push(acc);
            i = i + 1;
        }
        proof {
            assert(err@ =~= self.bp_val(out_err@, cache@));
        }
        err
    }

    fn calc_err(&self, prev_err: &Vec<i64>, input: &Vec<i64>) -> (r: Vec<i64>) {
        let m: usize = self.out_num;
        let n: usize = self.in_num;
        let mut grad: Vec<i64> = Vec::new();
        let mut i: usize = 0;
        while i < n
            invariant
                0 <= i <= n,
                n == self.in_num,
                m == self.out_num,
                self.wf(),
                bounded_seq(prev_err@),
                bounded_seq(input@),
                prev_err@.len() == m,
                input@.len() == n,
                grad@.len() == i * m,
                forall|k: int|
                    0 <= k < i * m ==> (#[trigger] grad@[k]) as int == mul_val(
                        prev_err@[k % m as int] as int,
                        input@[k / m as int] as int,
                    ),
                bounded_seq(grad@),
            decreases n - i,
        {
            let mut o: usize = 0;
            while o < m
                invariant
                    0 <= o <= m,
                    0 <= i < n,
                    n == self.in_num,
                    m == self.out_num,
                    self.wf(),
                    bounded_seq(prev_err@),
                    bounded_seq(input@),
                    prev_err@.len() == m,
                    input@.len() == n,
                    grad@.len() == i * m + o,
                    forall|k: int|
                        0 <= k < i * m + o ==> (#[trigger] grad@[k]) as int == mul_val(
                            prev_err@[k % m as int] as int,
                            input@[k / m as int] as int,
                        ),
                    bounded_seq(grad@),
                decreases m - o,
            {
                proof {
                    lemma_wix_bound(i as int, o as int, m as int, n as int);
                    lemma_fundamental_div_mod_converse(
                        i as int * m as int + o as int,
                        m as int,
                        i as int,
                        o as int,
                    );
                }
                grad.push(fx_mul(prev_err[o], input[i]));
                o = o + 1;
            }
            proof {
                lemma_mul_succ(i as int, m as int);
            }
            i = i + 1;
        }
        proof {
            assert(grad@ =~= self.grad_val(prev_err@, input@));
        }
        grad
    }

    fn step(&mut self, step: &Vec<i64>) {
        let len: usize = self.connections.len();
        let mut nw: Vec<i64> = Vec::new();
        let mut j: usize = 0;
        while j < len
            invariant
                0 <= j <= len,
                len == self.connections@.len(),
                self.wf(),
                bounded_seq(step@),
                step@.len() == len,
                nw@.len() == j,
                forall|k: int|
                    0 <= k < j ==> (#[trigger] nw@[k]) as int == sub_val(
                        self.connections@[k] as int,
                        step@[k] as int,
                    ),
                bounded_seq(nw@),
            decreases len - j,
        {
            nw.push(fx_sub(self.connections[j], step[j]));
            j = j + 1;
        }
        proof {
            assert(nw@ =~= stepped_params(self.connections@, step@));
        }
        self.connections = nw;
    }
}

/// An additive offset layer: one bias scalar per element of its input.
pub struct Bias {
    pub connections: Vec<i64>,
}

/// Elementwise saturating sum of an input vector and a bias buffer.
pub open spec fn bias_ff_val(x: Seq<i64>, b: Seq<i64>) -> Seq<i64> {
    Seq::new(x.len(), |i: int| add_val(x[i] as int, b[i] as int) as i64)
}

impl Layer for Bias {
    open spec fn wf(&self) -> bool {
        bounded_seq(self.connections@)
    }

    open spec fn spec_param_num(&self) -> nat {
        self.connections@.len()
    }

    open spec fn accepts(&self, n: nat) -> bool {
        n == self.connections@.len()
    }

    open spec fn out_len(&self, n: nat) -> nat {
        n
    }

    open spec fn ff_val(&self, x: Seq<i64>) -> Seq<i64> {
        bias_ff_val(x, self.connections@)
    }

    open spec fn cache_val(&self, x: Seq<i64>) -> Seq<i64> {
        Seq::empty()
    }

    open spec fn bp_ok(&self, e: Seq<i64>, c: Seq<i64>) -> bool {
        true
    }

    open spec fn bp_val(&self, e: Seq<i64>, c: Seq<i64>) -> Seq<i64> {
        e
    }

    open spec fn grad_ok(&self, e: Seq<i64>, x: Seq<i64>) -> bool {
        e.len() == self.connections@.len()
    }

    open spec fn grad_val(&self, e: Seq<i64>, x: Seq<i64>) -> Seq<i64> {
        e
    }

    open spec fn step_rel(&self, s: Seq<i64>, next: Self) -> bool {
        next.connections@ == stepped_params(self.connections@, s)
    }

    fn param_num(&self) -> (n: usize) {
        self.connections.len()
    }

    fn feed_forward(&self, input: &Vec<i64>) -> (out: Vec<i64>) {
        let len: usize = input.len();
        let mut out: Vec<i64> = Vec::new();
        let mut i: usize = 0;
        while i < len
            invariant
                0 <= i <= len,
                len == input@.len(),
                self.wf(),
                bounded_seq(input@),
                input@.len() == self.connections@.len(),
                out@.len() == i,
                forall|j: int|
                    0 <= j < i ==> (#[trigger] out@[j]) as int == add_val(
                        input@[j] as int,
                        self.connections@[j] as int,
                    ),
                bounded_seq(out@),
            decreases len - i,
        {
            out.push(fx_add(input[i], self.connections[i]));
            i = i + 1;
        }
        proof {
            assert(out@ =~= self.ff_val(input@));
        }
        out
    }

    fn d_feed_forward(&self, input: &Vec<i64>) -> (r: (Vec<i64>, Vec<i64>)) {
        let out: Vec<i64> = self.feed_forward(input);
        let cache: Vec<i64> = Vec::new();
        proof {
            assert(cache@ =~= self.cache_val(input@));
        }
        (out, cache)
    }

    fn back_propagate(&self, out_err: &Vec<i64>, cache: &Vec<i64>) -> (r: Vec<i64>) {
        out_err.clone()
    }

    fn calc_err(&self, prev_err: &Vec<i64>, input: &Vec<i64>) -> (r: Vec<i64>) {
        prev_err.clone()
    }

    fn step(&mut self, step: &Vec<i64>) {
        let len: usize = self.connections.len();
        let mut nw: Vec<i64> = Vec::new();
        let mut j: usize = 0;
        while j < len
            invariant
                0 <= j <= len,
                len == self.connections@.len(),
                self.wf(),
                bounded_seq(step@),
                step@.len() == len,
                nw@.len() == j,
                forall|k: int|
                    0 <= k < j ==> (#[trigger] nw@[k]) as int == sub_val(
                        self.connections@[k] as int,
                        step@[k] as int,
                    ),
                bounded_seq(nw@),
            decreases len - j,
        {
            nw.push(fx_sub(self.connections[j], step[j]));
            j = j + 1;
        }
        proof {
            assert(nw@ =~= stepped_params(self.connections@, step@));
        }
        self.connections = nw;
    }
}

/// One of the supported activation functions.
pub enum FuncKind {
    Relu(ReLU),
    Sig(Sigmoid),
}

impl Function for FuncKind {
    open spec fn act_val(&self, v: int) -> int {
        match self {
            FuncKind::Relu(f) => f.act_val(v),
            FuncKind::Sig(f) => f.act_val(v),
        }
    }

    open spec fn deriv_val(&self, v: int) -> int {
        match self {
            FuncKind::Relu(f) => f.deriv_val(v),
            FuncKind::Sig(f) => f.deriv_val(v),
        }
    }

    fn activate(&self, val: &Vec<i64>) -> (out: Vec<i64>) {
        match self {
            FuncKind::Relu(f) => f.activate(val),
            FuncKind::Sig(f) => f.activate(val),
        }
    }

    fn d_activate(&self, val: &Vec<i64>) -> (r: (Vec<i64>, Vec<i64>)) {
        match self {
            FuncKind::Relu(f) => f.d_activate(val),
            FuncKind::Sig(f) => f.d_activate(val),
        }
    }
}

/// A stateless layer applying one activation function elementwise.
pub struct Activation {
    pub activation: FuncKind,
}

impl Layer for Activation {
    open spec fn wf(&self) -> bool {
        true
    }

    open spec fn spec_param_num(&self) -> nat {
        0
    }

    open spec fn accepts(&self, n: nat) -> bool {
        true
    }

    open spec fn out_len(&self, n: nat) -> nat {
        n
    }

    open spec fn ff_val(&self, x: Seq<i64>) -> Seq<i64> {
        Seq::new(x.len(), |i: int| self.activation.act_val(x[i] as int) as i64)
    }

    open spec fn cache_val(&self, x: Seq<i64>) -> Seq<i64> {
        Seq::new(x.len(), |i: int| self.activation.deriv_val(x[i] as int) as i64)
    }

    open spec fn bp_ok(&self, e: Seq<i64>, c: Seq<i64>) -> bool {
        e.len() == c.len()
    }

    open spec fn bp_val(&self, e: Seq<i64>, c: Seq<i64>) -> Seq<i64> {
        Seq::new(e.len(), |i: int| mul_val(e[i] as int, c[i] as int) as i64)
    }

    open spec fn grad_ok(&self, e: Seq<i64>, x: Seq<i64>) -> bool {
        true
    }

    open spec fn grad_val(&self, e: Seq<i64>, x: Seq<i64>) -> Seq<i64> {
        Seq::empty()
    }

    open spec fn step_rel(&self, s: Seq<i64>, next: Self) -> bool {
        next == *self
    }

    fn param_num(&self) -> (n: usize) {
        0
    }

    fn feed_forward(&self, input: &Vec<i64>) -> (out: Vec<i64>) {
        let out: Vec<i64> = self.activation.activate(input);
        proof {
            assert(out@ =~= self.ff_val(input@));
        }
        out
    }

    fn d_feed_forward(&self, input: &Vec<i64>) -> (r: (Vec<i64>, Vec<i64>)) {
        let r: (Vec<i64>, Vec<i64>) = self.activation.d_activate(input);
        proof {
            assert(r.0@ =~= self.ff_val(input@));
            assert(r.1@ =~= self.cache_val(input@));
        }
        r
    }

    fn back_propagate(&self, out_err: &Vec<i64>, cache: &Vec<i64>) -> (r: Vec<i64>) {
        let len: usize = out_err.len();
        let mut delta: Vec<i64> = Vec::new();
        let mut i: usize = 0;
        while i < len
            invariant
                0 <= i <= len,
                len == out_err@.len(),
                out_err@.len() == cache@.len(),
                bounded_seq(out_err@),
                bounded_seq(cache@),
                delta@.len() == i,
                forall|j: int|
                    0 <= j < i ==> (#[trigger] delta@[j]) as int == mul_val(
                        out_err@[j] as int,
                        cache@[j] as int,
                    ),
                bounded_seq(delta@),
            decreases len - i,
        {
            delta.push(fx_mul(out_err[i], cache[i]));
            i = i + 1;
        }
        proof {
            assert(delta@ =~= self.bp_val(out_err@, cache@));
        }
        delta
    }

    fn calc_err(&self, prev_err: &Vec<i64>, input: &Vec<i64>) -> (r: Vec<i64>) {
        let r: Vec<i64> = Vec::new();
        proof {
            assert(r@ =~= self.grad_val(prev_err@, input@));
        }
        r
    }

    fn step(&mut self, step: &Vec<i64>) {
    }
}

/// The largest element of a vector, zero for an empty one.
pub open spec fn seq_max_val(s: Seq<i64>) -> int
    decreases s.len(),
{
    if s.len() == 0 {
        0
    } else if s.len() == 1 {
        s[0] as int
    } else {
        let m = seq_max_val(s.drop_last());
        if (s.last() as int) > m {
            s.last() as int
        } else {
            m
        }
    }
}

/// The exponential `e^(x[i] - max(x))` of the stabilised softmax.
pub open spec fn softmax_exp_at(x: Seq<i64>, i: int) -> int {
    exp_neg_val(sub_val(seq_max_val(x), x[i] as int))
}

/// Saturating sum of the first `n` stabilised exponentials.
pub open spec fn softmax_sum(x: Seq<i64>, n: int) -> int
    decreases n,
{
    if n <= 0 {
        0
    } else {
        add_val(softmax_sum(x, n - 1), softmax_exp_at(x, n - 1))
    }
}

/// Numerically stable softmax: exponentials of the max-shifted inputs,
/// normalised by their sum (guarded against a zero denominator).
pub open spec fn softmax_val(x: Seq<i64>) -> Seq<i64> {
    let t = softmax_sum(x, x.len() as int);
    let d = if t < 1 {
        1
    } else {
        t
    };
    Seq::new(x.len(), |i: int| div_val(softmax_exp_at(x, i), d) as i64)
}

/// The maximum of a vector is at least each of its elements.
pub proof fn lemma_seq_max_ge(s: Seq<i64>, i: int)
    requires
        0 <= i < s.len(),
    ensures
        seq_max_val(s) >= s[i] as int,
    decreases s.len(),
{
    if s.len() > 1 {
        if i < s.len() - 1 {
            lemma_seq_max_ge(s.drop_last(), i);
            assert(s.drop_last()[i] == s[i]);
        }
    }
}

/// A parameterless layer computing the numerically stable softmax; its
/// backward pass is the identity, valid only together with a loss whose
/// gradient is already `output - target`.
pub struct Softmax {}

impl Layer for Softmax {
    open spec fn wf(&self) -> bool {
        true
    }

    open spec fn spec_param_num(&self) -> nat {
        0
    }

    open spec fn accepts(&self, n: nat) -> bool {
        true
    }

    open spec fn out_len(&self, n: nat) -> nat {
        n
    }

    open spec fn ff_val(&self, x: Seq<i64>) -> Seq<i64> {
        softmax_val(x)
    }

    open spec fn cache_val(&self, x: Seq<i64>) -> Seq<i64> {
        Seq::empty()
    }

    open spec fn bp_ok(&self, e: Seq<i64>, c: Seq<i64>) -> bool {
        true
    }

    open spec fn bp_val(&self, e: Seq<i64>, c: Seq<i64>) -> Seq<i64> {
        e
    }

    open spec fn grad_ok(&self, e: Seq<i64>, x: Seq<i64>) -> bool {
        true
    }

    open spec fn grad_val(&self, e: Seq<i64>, x: Seq<i64>) -> Seq<i64> {
        Seq::empty()
    }

    open spec fn step_rel(&self, s: Seq<i64>, next: Self) -> bool {
        next == *self
    }

    fn param_num(&self) -> (n: usize) {
        0
    }

    fn feed_forward(&self, input: &Vec<i64>) -> (out: Vec<i64>) {
        let len: usize = input.len();
        if len == 0 {
            let out: Vec<i64> = Vec::new();
            proof {
                assert(out@ =~= softmax_val(input@));
            }
            return out;
        }
        let mut mx: i64 = input[0];
        let mut i: usize = 1;
        proof {
            assert(input@.take(1) =~= seq![input@[0]]);
        }
        while i < len
            invariant
                1 <= i <= len,
                len == input@.len(),
                bounded_seq(input@),
                fx_bounded(mx),
                mx as int == seq_max_val(input@.take(i as int)),
            decreases len - i,
        {
            proof {
                assert(input@.take(i as int + 1).drop_last() =~= input@.take(i as int));
                assert(input@.take(i as int + 1).last() == input@[i as int]);
            }
            let v: i64 = input[i];
            if v > mx {
                mx = v;
            }
            i = i + 1;
        }
        proof {
            assert(input@.take(len as int) =~= input@);
        }
        let mut exps: Vec<i64> = Vec::new();
        let mut total: i64 = 0;
        let mut j: usize = 0;
        while j < len
            invariant
                0 <= j <= len,
                len == input@.len(),
                bounded_seq(input@),
                fx_bounded(mx),
                mx as int == seq_max_val(input@),
                exps@.len() == j,
                forall|k: int|
                    0 <= k < j ==> (#[trigger] exps@[k]) as int == softmax_exp_at(input@, k),
                forall|k: int| 0 <= k < j ==> 0 <= (#[trigger] exps@[k]) <= SCALE,
                total as int == softmax_sum(input@, j as int),
                0 <= total <= FX_MAX,
            decreases len - j,
        {
            proof {
                lemma_seq_max_ge(input@, j as int);
            }
            let d: i64 = fx_sub(mx, input[j]);
            let e: i64 = exp_neg(d);
            total = fx_add(total, e);
            exps.push(e);
            j = j + 1;
        }
        let den: i64 = if total < 1 {
            1
        } else {
            total
        };
        let mut out: Vec<i64> = Vec::new();
        let mut k: usize = 0;
        while k < len
            invariant
                0 <= k <= len,
                len == input@.len(),
                exps@.len() == len,
                forall|p: int|
                    0 <= p < len ==> (#[trigger] exps@[p]) as int == softmax_exp_at(input@, p),
                forall|p: int| 0 <= p < len ==> 0 <= (#[trigger] exps@[p]) <= SCALE,
                1 <= den <= FX_MAX,
                den as int == (if softmax_sum(input@, len as int) < 1 {
                    1int
                } else {
                    softmax_sum(input@, len as int)
                }),
                out@.len() == k,
                forall|p: int|
                    0 <= p < k ==> (#[trigger] out@[p]) as int == div_val(
                        softmax_exp_at(input@, p),
                        den as int,
                    ),
                bounded_seq(out@),
            decreases len - k,
        {
            out.push(fx_div(exps[k], den));
            k = k + 1;
        }
        proof {
            assert(out@ =~= softmax_val(input@));
        }
        out
    }

    fn d_feed_forward(&self, input: &Vec<i64>) -> (r: (Vec<i64>, Vec<i64>)) {
        let out: Vec<i64> = self.feed_forward(input);
        let cache: Vec<i64> = Vec::new();
        proof {
            assert(cache@ =~= self.cache_val(input@));
        }
        (out, cache)
    }

    fn back_propagate(&self, out_err: &Vec<i64>, cache: &Vec<i64>) -> (r: Vec<i64>) {
        out_err.clone()
    }

    fn calc_err(&self, prev_err: &Vec<i64>, input: &Vec<i64>) -> (r: Vec<i64>) {
        let r: Vec<i64> = Vec::new();
        proof {
            assert(r@ =~= self.grad_val(prev_err@, input@));
        }
        r
    }

    fn step(&mut self, step: &Vec<i64>) {
    }
}

/// Any one of the concrete layer variants; a network stores these.
pub enum NetLayer {
    Dense(Dense),
    Bias(Bias),
    Activation(Activation),
    Softmax(Softmax),
}

impl Layer for NetLayer {
    open spec fn wf(&self) -> bool {
        match self {
            NetLayer::Dense(l) => l.wf(),
            NetLayer::Bias(l) => l.wf(),
            NetLayer::Activation(l) => l.wf(),
            NetLayer::Softmax(l) => l.wf(),
        }
    }

    open spec fn spec_param_num(&self) -> nat {
        match self {
            NetLayer::Dense(l) => l.spec_param_num(),
            NetLayer::Bias(l) => l.spec_param_num(),
            NetLayer::Activation(l) => l.spec_param_num(),
            NetLayer::Softmax(l) => l.spec_param_num(),
        }
    }

    open spec fn accepts(&self, n: nat) -> bool {
        match self {
            NetLayer::Dense(l) => l.accepts(n),
            NetLayer::Bias(l) => l.accepts(n),
            NetLayer::Activation(l) => l.accepts(n),
            NetLayer::Softmax(l) => l.accepts(n),
        }
    }

    open spec fn out_len(&self, n: nat) -> nat {
        match self {
            NetLayer::Dense(l) => l.out_len(n),
            NetLayer::Bias(l) => l.out_len(n),
            NetLayer::Activation(l) => l.out_len(n),
            NetLayer::Softmax(l) => l.out_len(n),
        }
    }

    open spec fn ff_val(&self, x: Seq<i64>) -> Seq<i64> {
        match self {
            NetLayer::Dense(l) => l.ff_val(x),
            NetLayer::Bias(l) => l.ff_val(x),
            NetLayer::Activation(l) => l.ff_val(x),
            NetLayer::Softmax(l) => l.ff_val(x),
        }
    }

    open spec fn cache_val(&self, x: Seq<i64>) -> Seq<i64> {
        match self {
            NetLayer::Dense(l) => l.cache_val(x),
            NetLayer::Bias(l) => l.cache_val(x),
            NetLayer::Activation(l) => l.cache_val(x),
            NetLayer::Softmax(l) => l.cache_val(x),
        }
    }

    open spec fn bp_ok(&self, e: Seq<i64>, c: Seq<i64>) -> bool {
        match self {
            NetLayer::Dense(l) => l.bp_ok(e, c),
            NetLayer::Bias(l) => l.bp_ok(e, c),
            NetLayer::Activation(l) => l.bp_ok(e, c),
            NetLayer::Softmax(l) => l.bp_ok(e, c),
        }
    }

    open spec fn bp_val(&self, e: Seq<i64>, c: Seq<i64>) -> Seq<i64> {
        match self {
            NetLayer::Dense(l) => l.bp_val(e, c),
            NetLayer::Bias(l) => l.bp_val(e, c),
            NetLayer::Activation(l) => l.bp_val(e, c),
            NetLayer::Softmax(l) => l.bp_val(e, c),
        }
    }

    open spec fn grad_ok(&self, e: Seq<i64>, x: Seq<i64>) -> bool {
        match self {
            NetLayer::Dense(l) => l.grad_ok(e, x),
            NetLayer::Bias(l) => l.grad_ok(e, x),
            NetLayer::Activation(l) => l.grad_ok(e, x),
            NetLayer::Softmax(l) => l.grad_ok(e, x),
        }
    }

    open spec fn grad_val(&self, e: Seq<i64>, x: Seq<i64>) -> Seq<i64> {
        match self {
            NetLayer::Dense(l) => l.grad_val(e, x),
            NetLayer::Bias(l) => l.grad_val(e, x),
            NetLayer::Activation(l) => l.grad_val(e, x),
            NetLayer::Softmax(l) => l.grad_val(e, x),
        }
    }

    open spec fn step_rel(&self, s: Seq<i64>, next: Self) -> bool {
        match self {
            NetLayer::Dense(l) => match next {
                NetLayer::Dense(nl) => l.step_rel(s, nl),
                _ => false,
            },
            NetLayer::Bias(l) => match next {
                NetLayer::Bias(nl) => l.step_rel(s, nl),
                _ => false,
            },
            NetLayer::Activation(l) => match next {
                NetLayer::Activation(nl) => l.step_rel(s, nl),
                _ => false,
            },
            NetLayer::Softmax(l) => match next {
                NetLayer::Softmax(nl) => l.step_rel(s, nl),
                _ => false,
            },
        }
    }

    fn param_num(&self) -> (n: usize) {
        match self {
            NetLayer::Dense(l) => l.param_num(),
            NetLayer::Bias(l) => l.param_num(),
            NetLayer::Activation(l) => l.param_num(),
            NetLayer::Softmax(l) => l.param_num(),
        }
    }

    fn feed_forward(&self, input: &Vec<i64>) -> (out: Vec<i64>) {
        match self {
            NetLayer::Dense(l) => l.feed_forward(input),
            NetLayer::Bias(l) => l.feed_forward(input),
            NetLayer::Activation(l) => l.feed_forward(input),
            NetLayer::Softmax(l) => l.feed_forward(input),
        }
    }

    fn d_feed_forward(&self, input: &Vec<i64>) -> (r: (Vec<i64>, Vec<i64>)) {
        match self {
            NetLayer::Dense(l) => l.d_feed_forward(input),
            NetLayer::Bias(l) => l.d_feed_forward(input),
            NetLayer::Activation(l) => l.d_feed_forward(input),
            NetLayer::Softmax(l) => l.d_feed_forward(input),
        }
    }

    fn back_propagate(&self, out_err: &Vec<i64>, cache: &Vec<i64>) -> (r: Vec<i64>) {
        match self {
            NetLayer::Dense(l) => l.back_propagate(out_err, cache),
            NetLayer::Bias(l) => l.back_propagate(out_err, cache),
            NetLayer::Activation(l) => l.back_propagate(out_err, cache),
            NetLayer::Softmax(l) => l.back_propagate(out_err, cache),
        }
    }

    fn calc_err(&self, prev_err: &Vec<i64>, input: &Vec<i64>) -> (r: Vec<i64>) {
        match self {
            NetLayer::Dense(l) => l.calc_err(prev_err, input),
            NetLayer::Bias(l) => l.calc_err(prev_err, input),
            NetLayer::Activation(l) => l.calc_err(prev_err, input),
            NetLayer::Softmax(l) => l.calc_err(prev_err, input),
        }
    }

    fn step(&mut self, step: &Vec<i64>) {
        match self {
            NetLayer::Dense(l) => l.step(step),
            NetLayer::Bias(l) => l.step(step),
            NetLayer::Activation(l) => l.step(step),
            NetLayer::Softmax(l) => l.step(step),
        }
    }
}

impl NetLayer {
    /// Runtime check of `accepts`: whether the layer takes an input of width
    /// `n`.
    pub fn check_accepts(&self, n: usize) -> (b: bool)
        ensures
            b == self.accepts(n as nat),
    {
        match self {
            NetLayer::Dense(l) => n == l.in_num,
            NetLayer::Bias(l) => n == l.connections.len(),
            NetLayer::Activation(_l) => true,
            NetLayer::Softmax(_l) => true,
        }
    }
}

/// An ordered sequence of heterogeneous layers composed end to end.
pub struct SeqNet {
    pub layers: Vec<NetLayer>,
}

/// All layers of the sequence are well formed.
pub open spec fn net_wf(ls: Seq<NetLayer>) -> bool {
    forall|i: int| 0 <= i < ls.len() ==> (#[trigger] ls[i]).wf()
}

/// Whether the chain of layers accepts an input of width `n`.
pub open spec fn net_accepts(ls: Seq<NetLayer>, n: nat) -> bool
    decreases ls.len(),
{
    if ls.len() == 0 {
        true
    } else {
        ls[0].accepts(n) && net_accepts(ls.drop_first(), ls[0].out_len(n))
    }
}

/// Output width of the chain for an input of width `n`.
pub open spec fn net_out_len(ls: Seq<NetLayer>, n: nat) -> nat
    decreases ls.len(),
{
    if ls.len() == 0 {
        n
    } else {
        net_out_len(ls.drop_first(), ls[0].out_len(n))
    }
}

/// Forward evaluation of the chain.
pub open spec fn net_ff_val(ls: Seq<NetLayer>, x: Seq<i64>) -> Seq<i64>
    decreases ls.len(),
{
    if ls.len() == 0 {
        x
    } else {
        net_ff_val(ls.drop_first(), ls[0].ff_val(x))
    }
}

/// Parameter count of each layer, in forward order.
pub open spec fn net_shape(ls: Seq<NetLayer>) -> Seq<nat> {
    Seq::new(ls.len(), |i: int| ls[i].spec_param_num())
}

impl SeqNet {
    /// A usable network: non-empty, with every layer well formed.
    pub open spec fn wf(&self) -> bool {
        self.layers@.len() >= 1 && net_wf(self.layers@)
    }
}

/// The maximum of a vector is attained at some index.
pub proof fn lemma_seq_max_attained(s: Seq<i64>)
    requires
        s.len() >= 1,
    ensures
        exists|j: int| 0 <= j < s.len() && (#[trigger] s[j]) as int == seq_max_val(s),
    decreases s.len(),
{
    if s.len() == 1 {
        assert(s[0] as int == seq_max_val(s));
    } else {
        if (s.last() as int) > seq_max_val(s.drop_last()) {
            assert(s[s.len() - 1] as int == seq_max_val(s));
        } else {
            lemma_seq_max_attained(s.drop_last());
            let j = choose|j: int|
                0 <= j < s.drop_last().len() && (#[trigger] s.drop_last()[j]) as int
                    == seq_max_val(s.drop_last());
            assert(s[j] as int == seq_max_val(s));
        }
    }
}

/// Each stabilised exponential of the softmax lies in the unit interval, and
/// the running sum dominates every one of them.
proof fn lemma_softmax_sum_ge(x: Seq<i64>, n: int, j: int)
    requires
        0 <= j < n <= x.len(),
    ensures
        0 <= softmax_sum(x, n) <= FX_MAX as int,
        softmax_sum(x, n) >= softmax_exp_at(x, j),
    decreases n,
{
    lemma_seq_max_ge(x, n - 1);
    crate::func::lemma_exp_neg_val_bounds(sub_val(seq_max_val(x), x[n - 1] as int));
    if n - 1 > j {
        lemma_softmax_sum_ge(x, n - 1, j);
    } else {
        lemma_softmax_sum_nonneg(x, n - 1);
    }
}

/// The running sum of stabilised exponentials is non-negative and bounded.
proof fn lemma_softmax_sum_nonneg(x: Seq<i64>, n: int)
    requires
        n <= x.len(),
    ensures
        0 <= softmax_sum(x, n) <= FX_MAX as int,
    decreases n,
{
    if n > 0 {
        lemma_seq_max_ge(x, n - 1);
        crate::func::lemma_exp_neg_val_bounds(sub_val(seq_max_val(x), x[n - 1] as int));
        lemma_softmax_sum_nonneg(x, n - 1);
    }
}

/// The denominator of a non-empty softmax is at least one: the exponential at
/// the maximum is exactly one.
pub proof fn lemma_softmax_total_pos(x: Seq<i64>)
    requires
        x.len() >= 1,
    ensures
        softmax_sum(x, x.len() as int) >= SCALE as int,
{
    lemma_seq_max_attained(x);
    let j = choose|j: int| 0 <= j < x.len() && (#[trigger] x[j]) as int == seq_max_val(x);
    assert(sub_val(seq_max_val(x), x[j] as int) == 0);
    crate::func::lemma_exp_neg_val_zero();
    assert(softmax_exp_at(x, j) == SCALE as int);
    lemma_softmax_sum_ge(x, x.len() as int, j);
}

/// Softmax outputs are non-negative and at most one: part of the claim that
/// the stable softmax yields a probability vector.
pub proof fn lemma_softmax_bounds(x: Seq<i64>)
    requires
        x.len() >= 1,
    ensures
        forall|i: int|
            0 <= i < x.len() ==> 0 <= (#[trigger] softmax_val(x)[i]) as int <= SCALE as int,
{
    lemma_softmax_total_pos(x);
    let t = softmax_sum(x, x.len() as int);
    assert forall|i: int| 0 <= i < x.len() implies 0 <= (#[trigger] softmax_val(x)[i]) as int
        <= SCALE as int by {
        lemma_seq_max_ge(x, i);
        crate::func::lemma_exp_neg_val_bounds(sub_val(seq_max_val(x), x[i] as int));
        let e = softmax_exp_at(x, i);
        lemma_softmax_sum_ge(x, x.len() as int, i);
        lemma_div_pos_is_pos(e * SCALE as int, t);
        lemma_mul_inequality(e, t, SCALE as int);
        lemma_div_is_ordered(e * SCALE as int, t * SCALE as int, t);
        lemma_div_multiples_vanish(SCALE as int, t);
        assert(tdiv(e, t) <= SCALE as int);
    }
}

/// Adding one constant to every input leaves the softmax unchanged: the
/// max-subtraction makes the exponentials, and so the outputs, identical.
pub proof fn lemma_softmax_shift_invariant(x: Seq<i64>, c: int)
    requires
        forall|i: int|
            0 <= i < x.len() ==> -(FX_MAX as int) <= (#[trigger] x[i]) as int + c <= FX_MAX as int,
    ensures
        softmax_val(Seq::new(x.len(), |i: int| (x[i] as int + c) as i64)) == softmax_val(x),
{
    let y = Seq::new(x.len(), |i: int| (x[i] as int + c) as i64);
    lemma_seq_max_shift(x, c);
    assert forall|i: int| 0 <= i < x.len() implies #[trigger] softmax_exp_at(y, i)
        == softmax_exp_at(x, i) by {
        assert(y[i] as int == x[i] as int + c);
        assert(sub_val(seq_max_val(y), y[i] as int) == sub_val(seq_max_val(x), x[i] as int));
    }
    lemma_softmax_sum_shift(x, y, x.len() as int);
    assert(softmax_val(y) =~= softmax_val(x));
}

/// The maximum of a shifted vector is the shifted maximum.
proof fn lemma_seq_max_shift(x: Seq<i64>, c: int)
    requires
        forall|i: int|
            0 <= i < x.len() ==> -(FX_MAX as int) <= (#[trigger] x[i]) as int + c <= FX_MAX as int,
    ensures
        seq_max_val(Seq::new(x.len(), |i: int| (x[i] as int + c) as i64)) == seq_max_val(x) + (
        if x.len() == 0 {
            0int
        } else {
            c
        }),
    decreases x.len(),
{
    let y = Seq::new(x.len(), |i: int| (x[i] as int + c) as i64);
    if x.len() > 1 {
        lemma_seq_max_shift(x.drop_last(), c);
        assert(y.drop_last() =~= Seq::new(
            x.drop_last().len(),
            |i: int| (x.drop_last()[i] as int + c) as i64,
        ));
        assert(y.last() as int == x.last() as int + c);
    }
}

/// Sums of equal stabilised exponentials agree.
proof fn lemma_softmax_sum_shift(x: Seq<i64>, y: Seq<i64>, n: int)
    requires
        n <= x.len(),
        x.len() == y.len(),
        forall|i: int|
            0 <= i < x.len() ==> #[trigger] softmax_exp_at(y, i) == softmax_exp_at(x, i),
    ensures
        softmax_sum(y, n) == softmax_sum(x, n),
    decreases n,
{
    if n > 0 {
        lemma_softmax_sum_shift(x, y, n - 1);
    }
}

/// Plain (unclamped) sum of a vector of scalars.
pub open spec fn seq_sum(s: Seq<i64>) -> int
    decreases s.len(),
{
    if s.len() == 0 {
        0
    } else {
        seq_sum(s.drop_last()) + s.last() as int
    }
}

/// Plain sum of the first `k` stabilised exponentials.
spec fn exp_sum(x: Seq<i64>, k: int) -> int
    decreases k,
{
    if k <= 0 {
        0
    } else {
        exp_sum(x, k - 1) + softmax_exp_at(x, k - 1)
    }
}

/// Plain sum of the first `k` softmax outputs, with denominator `t`.
spec fn out_psum(x: Seq<i64>, t: int, k: int) -> int
    decreases k,
{
    if k <= 0 {
        0
    } else {
        out_psum(x, t, k - 1) + tdiv(softmax_exp_at(x, k - 1), t)
    }
}

/// For at most 128 inputs the saturating sum of exponentials never clamps:
/// it is the plain sum, bounded by one per element.
proof fn lemma_softmax_sum_exact(x: Seq<i64>, k: int)
    requires
        0 <= k <= x.len() <= 128,
    ensures
        softmax_sum(x, k) == exp_sum(x, k),
        0 <= exp_sum(x, k) <= k * (SCALE as int),
    decreases k,
{
    if k > 0 {
        lemma_softmax_sum_exact(x, k - 1);
        lemma_seq_max_ge(x, k - 1);
        crate::func::lemma_exp_neg_val_bounds(sub_val(seq_max_val(x), x[k - 1] as int));
    }
}

/// The denominator times the partial output sum tracks `SCALE` times the
/// partial exponential sum, losing less than the denominator per element.
proof fn lemma_out_psum_bounds(x: Seq<i64>, t: int, k: int)
    requires
        t >= 1,
        0 <= k <= x.len(),
    ensures
        t * out_psum(x, t, k) <= SCALE as int * exp_sum(x, k),
        t * out_psum(x, t, k) >= SCALE as int * exp_sum(x, k) - k * (t - 1),
    decreases k,
{
    if k <= 0 {
        assert(t * 0 == 0) by (nonlinear_arith);
    } else {
        lemma_out_psum_bounds(x, t, k - 1);
        lemma_seq_max_ge(x, k - 1);
        crate::func::lemma_exp_neg_val_bounds(sub_val(seq_max_val(x), x[k - 1] as int));
        let e = softmax_exp_at(x, k - 1);
        let d = tdiv(e, t);
        let p = out_psum(x, t, k - 1);
        vstd::arithmetic::div_mod::lemma_fundamental_div_mod(e * SCALE as int, t);
        vstd::arithmetic::div_mod::lemma_mod_division_less_than_divisor(e * SCALE as int, t);
        assert(t * d <= e * SCALE as int && t * d > e * SCALE as int - t);
        vstd::arithmetic::mul::lemma_mul_is_distributive_add(t, p, d);
        vstd::arithmetic::mul::lemma_mul_is_distributive_sub_other_way(t - 1, k, 1);
        assert((k - 1) * (t - 1) == k * (t - 1) - (t - 1));
        assert(t * out_psum(x, t, k) == t * p + t * d);
        assert(t * p >= SCALE as int * exp_sum(x, k - 1) - (k - 1) * (t - 1));
        assert(exp_sum(x, k) == exp_sum(x, k - 1) + e);
        assert(SCALE as int * exp_sum(x, k) == SCALE as int * exp_sum(x, k - 1) + SCALE as int
            * e) by (nonlinear_arith)
            requires
                exp_sum(x, k) == exp_sum(x, k - 1) + e;
        assert(e * SCALE as int == SCALE as int * e);
    }
}

/// The softmax output elements, summed plainly, match the outputs of the
/// normalisation loop.
proof fn lemma_out_sum_bridge(x: Seq<i64>, t: int, k: int)
    requires
        x.len() >= 1,
        t == softmax_sum(x, x.len() as int),
        t >= 1,
        t <= FX_MAX as int,
        0 <= k <= x.len(),
    ensures
        seq_sum(softmax_val(x).take(k)) == out_psum(x, t, k),
    decreases k,
{
    let out = softmax_val(x);
    if k == 0 {
        assert(out.take(0) =~= Seq::<i64>::empty());
    } else {
        lemma_out_sum_bridge(x, t, k - 1);
        assert(out.take(k).drop_last() =~= out.take(k - 1));
        lemma_seq_max_ge(x, k - 1);
        crate::func::lemma_exp_neg_val_bounds(sub_val(seq_max_val(x), x[k - 1] as int));
        let e = softmax_exp_at(x, k - 1);
        lemma_softmax_sum_ge(x, x.len() as int, k - 1);
        lemma_div_pos_is_pos(e * SCALE as int, t);
        lemma_mul_inequality(e, t, SCALE as int);
        lemma_div_is_ordered(e * SCALE as int, t * SCALE as int, t);
        lemma_div_multiples_vanish(SCALE as int, t);
        assert(0 <= tdiv(e, t) <= SCALE as int);
        assert(out[k - 1] as int == tdiv(e, t));
        assert(out.take(k).last() == out[k - 1]);
    }
}

/// The softmax outputs of at most 128 inputs sum to one, within one unit per
/// element: the normalisation loses less than one unit of truncation each.
pub proof fn lemma_softmax_sums_to_one(x: Seq<i64>)
    requires
        1 <= x.len() <= 128,
    ensures
        SCALE as int - x.len() < seq_sum(softmax_val(x)) <= SCALE as int,
{
    let n = x.len() as int;
    lemma_softmax_sum_exact(x, n);
    lemma_softmax_total_pos(x);
    lemma_softmax_sum_nonneg(x, n);
    let t = softmax_sum(x, n);
    lemma_out_sum_bridge(x, t, n);
    assert(softmax_val(x).take(n) =~= softmax_val(x));
    lemma_out_psum_bounds(x, t, n);
    let s = out_psum(x, t, n);
    // upper bound: t * s <= SCALE * t, and t > 0
    vstd::arithmetic::mul::lemma_mul_is_commutative(t, s);
    vstd::arithmetic::mul::lemma_mul_is_commutative(t, SCALE as int);
    vstd::arithmetic::mul::lemma_mul_inequality_converse(s, SCALE as int, t);
    // lower bound: t * s >= SCALE * t - n * (t - 1) > (SCALE - n) * t, since n >= 1
    vstd::arithmetic::mul::lemma_mul_is_distributive_sub(n, t, 1);
    assert(n * (t - 1) == n * t - n);
    vstd::arithmetic::mul::lemma_mul_is_distributive_sub(t, SCALE as int, n);
    vstd::arithmetic::mul::lemma_mul_is_commutative(t, n);
    vstd::arithmetic::mul::lemma_mul_is_commutative(t, SCALE as int - n);
    vstd::arithmetic::mul::lemma_mul_strict_inequality_converse(SCALE as int - n, s, t);
}

/// Whether a layer can stand at a point where the flowing width is `w`
/// (`None` while no layer has constrained it yet).
pub open spec fn layer_fits(l: NetLayer, w: Option<nat>) -> bool {
    match l {
        NetLayer::Dense(d) => w is None || w == Some(d.in_num as nat),
        NetLayer::Bias(b) => w is None || w == Some(b.connections@.len()),
        NetLayer::Activation(_) => true,
        NetLayer::Softmax(_) => true,
    }
}

/// The width flowing out of a layer, given the width flowing in.
pub open spec fn layer_next_width(l: NetLayer, w: Option<nat>) -> Option<nat> {
    match l {
        NetLayer::Dense(d) => Some(d.out_num as nat),
        NetLayer::Bias(b) => Some(b.connections@.len()),
        NetLayer::Activation(_) => w,
        NetLayer::Softmax(_) => w,
    }
}

/// Adjacent layers of the chain have compatible widths.
pub open spec fn chain_ok(ls: Seq<NetLayer>, w: Option<nat>) -> bool
    decreases ls.len(),
{
    if ls.len() == 0 {
        true
    } else {
        layer_fits(ls[0], w) && chain_ok(ls.drop_first(), layer_next_width(ls[0], w))
    }
}

/// Runtime check that every element is a valid scalar.
fn check_bounded(v: &Vec<i64>) -> (b: bool)
    ensures
        b == bounded_seq(v@),
{
    let mut i: usize = 0;
    while i < v.len()
        invariant
            0 <= i <= v@.len(),
            forall|j: int| 0 <= j < i ==> fx_bounded(#[trigger] v@[j]),
        decreases v@.len() - i,
    {
        let x: i64 = v[i];
        if x < -FX_MAX || x > FX_MAX {
            return false;
        }
        i = i + 1;
    }
    true
}

impl NetLayer {
    /// Runtime check of the layer's well-formedness.
    pub fn check_wf(&self) -> (b: bool)
        ensures
            b == self.wf(),
    {
        match self {
            NetLayer::Dense(l) => {
                proof {
                    vstd::arithmetic::mul::lemma_mul_upper_bound(
                        l.in_num as int,
                        0xffffffffffffffffint,
                        l.out_num as int,
                        0xffffffffffffffffint,
                    );
                }
                let prod_ok: bool = (l.in_num as u128) * (l.out_num as u128) == (
                l.connections.len() as u128);
                prod_ok && check_bounded(&l.connections)
            },
            NetLayer::Bias(l) => check_bounded(&l.connections),
            NetLayer::Activation(_l) => true,
            NetLayer::Softmax(_l) => true,
        }
    }
}

impl SeqNet {
    /// Builds a network after validating it: the sequence must be non-empty,
    /// every layer well formed, and adjacent layer widths chain-compatible.
    /// Fails with `ShapeMismatch` exactly otherwise.
    pub fn new(layers: Vec<NetLayer>) -> (r: Result<SeqNet, NetError>)
        ensures
            (r is Ok) == (layers@.len() >= 1 && net_wf(layers@) && chain_ok(layers@, None)),
            r is Ok ==> r->Ok_0.layers@ == layers@ && r->Ok_0.wf(),
            r is Err ==> r->Err_0 == NetError::ShapeMismatch,
    {
        let n: usize = layers.len();
        if n == 0 {
            return Err(NetError::ShapeMismatch);
        }
        let ghost ls: Seq<NetLayer> = layers@;
        let mut width: Option<usize> = None;
        let mut i: usize = 0;
        proof {
            assert(ls.skip(0) =~= ls);
        }
        while i < n
            invariant
                0 <= i <= n,
                n == ls.len(),
                ls == layers@,
                forall|t: int| 0 <= t < i ==> (#[trigger] ls[t]).wf(),
                chain_ok(ls, None) == chain_ok(
                    ls.skip(i as int),
                    match width {
                        Some(u) => Some(u as nat),
                        None => None,
                    },
                ),
            decreases n - i,
        {
            let ghost w: Option<nat> = match width {
                Some(u) => Some(u as nat),
                None => None,
            };
            proof {
                assert(ls.skip(i as int).drop_first() =~= ls.skip(i as int + 1));
                assert(ls.skip(i as int)[0] == ls[i as int]);
            }
            if !layers[i].check_wf() {
                return Err(NetError::ShapeMismatch);
            }
            let fits: bool = match (&layers[i], &width) {
                (NetLayer::Dense(d), Some(u)) => *u == d.in_num,
                (NetLayer::Bias(b), Some(u)) => *u == b.connections.len(),
                _ => true,
            };
            if !fits {
                proof {
                    assert(!layer_fits(ls[i as int], w));
                }
                return Err(NetError::ShapeMismatch);
            }
            proof {
                assert(layer_fits(ls[i as int], w));
            }
            width = match &layers[i] {
                NetLayer::Dense(d) => Some(d.out_num),
                NetLayer::Bias(b) => Some(b.connections.len()),
                NetLayer::Activation(_) => width,
                NetLayer::Softmax(_) => width,
            };
            proof {
                assert((match width {
                    Some(u) => Some(u as nat),
                    None => None,
                }) == layer_next_width(ls[i as int], w));
            }
            i = i + 1;
        }
        proof {
            assert(ls.skip(n as int) =~= Seq::<NetLayer>::empty());
        }
        Ok(SeqNet { layers })
    }
}

} // verus!
