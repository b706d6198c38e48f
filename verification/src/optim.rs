//! The propagation engine and the gradient-accumulating optimizers.
//!
//! The engine runs one training example through the network: a forward pass
//! that records each layer's input and derivative cache, the output error
//! `output - expected`, and a reverse walk computing each layer's parameter
//! gradient while propagating the error backward. The gradients, in
//! last-layer-first order, are handed to an optimizer, which accumulates them
//! and later converts its state into one step vector per layer.

use vstd::prelude::*;
use crate::fixed::{
    FX_MAX, FX_EPS, SCALE, fx_bounded, bounded_seq, bounded_mat, add_val, sub_val, mul_val,
    div_val, sqrt_val, tmul, fx_add, fx_sub, fx_mul, fx_div, fx_sqrt, lemma_mul_val_nonneg, lemma_mul_val_sq_nonneg,
};
use crate::net::{
    SeqNet, NetLayer, NetError, Layer, net_wf, net_accepts, net_out_len, net_ff_val, net_shape,
};

verus! {

/// Input reaching layer `i` of the chain during a forward pass.
pub open spec fn ins_at(ls: Seq<NetLayer>, x: Seq<i64>, i: int) -> Seq<i64> {
    net_ff_val(ls.take(i), x)
}

/// Output-side error driving the backward pass: `output - expected`,
/// elementwise.
pub open spec fn out_err_val(ls: Seq<NetLayer>, x: Seq<i64>, exp: Seq<i64>) -> Seq<i64> {
    Seq::new(exp.len(), |j: int| sub_val(net_ff_val(ls, x)[j] as int, exp[j] as int) as i64)
}

/// The propagated error after the backward walk has processed the top `k`
/// layers: the error with respect to the input of layer `len - k`.
pub open spec fn err_after(ls: Seq<NetLayer>, x: Seq<i64>, exp: Seq<i64>, k: int) -> Seq<i64>
    decreases k,
{
    if k <= 0 {
        out_err_val(ls, x, exp)
    } else {
        let i = ls.len() - k;
        ls[i].bp_val(err_after(ls, x, exp, k - 1), ls[i].cache_val(ins_at(ls, x, i)))
    }
}

/// The `k`-th parameter gradient produced by the backward walk; it belongs to
/// layer `len - 1 - k`.
pub open spec fn rev_grad_at(ls: Seq<NetLayer>, x: Seq<i64>, exp: Seq<i64>, k: int) -> Seq<i64> {
    ls[ls.len() - 1 - k].grad_val(err_after(ls, x, exp, k), ins_at(ls, x, ls.len() - 1 - k))
}

/// All per-layer parameter gradients of one training pass, in the order the
/// walk computes them: last layer first.
pub open spec fn rev_grads(ls: Seq<NetLayer>, x: Seq<i64>, exp: Seq<i64>) -> Seq<Seq<i64>> {
    Seq::new(ls.len(), |k: int| rev_grad_at(ls, x, exp, k))
}

/// A reversed gradient list fits an accumulator shape: row `i` of the list
/// has the parameter count of layer `len - 1 - i`.
pub open spec fn rev_shape_ok(shape: Seq<nat>, errs: Seq<Seq<i64>>) -> bool {
    &&& errs.len() == shape.len()
    &&& forall|i: int|
        0 <= i < errs.len() ==> (#[trigger] errs[i]).len() == shape[shape.len() - 1 - i]
}

/// A matrix has exactly the given row lengths.
pub open spec fn mat_shape_ok(m: Seq<Seq<i64>>, shape: Seq<nat>) -> bool {
    &&& m.len() == shape.len()
    &&& forall|i: int| 0 <= i < m.len() ==> (#[trigger] m[i]).len() == shape[i]
}

/// The all-zero matrix of a given shape.
pub open spec fn zero_mat(shape: Seq<nat>) -> Seq<Seq<i64>> {
    Seq::new(shape.len(), |i: int| Seq::new(shape[i], |j: int| 0i64))
}

/// Accumulation used by plain gradient descent and momentum: each gradient is
/// scaled by the learning rate and added to the forward-indexed accumulator;
/// row `i` of the accumulator absorbs row `len - 1 - i` of the reversed list.
pub open spec fn scaled_acc_update(acc: Seq<Seq<i64>>, errs: Seq<Seq<i64>>, lr: i64) -> Seq<
    Seq<i64>,
> {
    Seq::new(
        acc.len(),
        |i: int|
            Seq::new(
                acc[i].len(),
                |j: int|
                    add_val(
                        acc[i][j] as int,
                        mul_val(errs[acc.len() - 1 - i][j] as int, lr as int),
                    ) as i64,
            ),
    )
}

/// Accumulation used by RMSProp: the raw gradients are added, unscaled.
pub open spec fn raw_acc_update(acc: Seq<Seq<i64>>, errs: Seq<Seq<i64>>) -> Seq<Seq<i64>> {
    Seq::new(
        acc.len(),
        |i: int|
            Seq::new(
                acc[i].len(),
                |j: int| add_val(acc[i][j] as int, errs[acc.len() - 1 - i][j] as int) as i64,
            ),
    )
}

/// A gradient-accumulating optimizer: `reversed_update` absorbs one reversed
/// gradient list, `get_step` drains the accumulated state into one step
/// vector per layer (to be subtracted from that layer's parameters).
pub trait Optimizer: Sized {
    /// Internal well-formedness.
    spec fn wf(&self) -> bool;

    /// Forward-indexed accumulator row lengths, one per network layer.
    spec fn shape(&self) -> Seq<nat>;

    /// The transient accumulator, zeroed by every `get_step`.
    spec fn acc(&self) -> Seq<Seq<i64>>;

    /// The persistent state (momentum or second moment), surviving across
    /// `get_step` calls; empty for plain gradient descent.
    spec fn persist(&self) -> Seq<Seq<i64>>;

    /// The fixed configuration scalars (learning rate, decay factors).
    spec fn config(&self) -> Seq<i64>;

    /// The accumulator after absorbing one reversed gradient list.
    spec fn acc_updated(&self, errs: Seq<Seq<i64>>) -> Seq<Seq<i64>>;

    /// The step vectors `get_step` returns in the current state.
    spec fn step_out(&self) -> Seq<Seq<i64>>;

    /// The persistent state after one `get_step`.
    spec fn persist_after(&self) -> Seq<Seq<i64>>;

    fn reversed_update(&mut self, errors: &Vec<Vec<i64>>)
        requires
            old(self).wf(),
            bounded_mat(errors.deep_view()),
            rev_shape_ok(old(self).shape(), errors.deep_view()),
        ensures
            final(self).wf(),
            final(self).shape() == old(self).shape(),
            final(self).config() == old(self).config(),
            final(self).persist() == old(self).persist(),
            final(self).acc() == old(self).acc_updated(errors.deep_view()),
    ;

    fn get_step(&mut self) -> (r: Vec<Vec<i64>>)
        requires
            old(self).wf(),
        ensures
            final(self).wf(),
            final(self).shape() == old(self).shape(),
            final(self).config() == old(self).config(),
            r.deep_view() == old(self).step_out(),
            mat_shape_ok(r.deep_view(), old(self).shape()),
            bounded_mat(r.deep_view()),
            final(self).acc() == zero_mat(old(self).shape()),
            final(self).persist() == old(self).persist_after(),
    ;
}

/// Appending one layer to a chain applies it after the rest.
proof fn lemma_net_ff_push(s: Seq<NetLayer>, l: NetLayer, x: Seq<i64>)
    ensures
        net_ff_val(s.push(l), x) == l.ff_val(net_ff_val(s, x)),
    decreases s.len(),
{
    if s.len() == 0 {
        assert(s.push(l).drop_first() =~= Seq::<NetLayer>::empty());
        assert(s.push(l)[0] == l);
        assert(net_ff_val(s.push(l), x) == net_ff_val(Seq::<NetLayer>::empty(), l.ff_val(x)));
    } else {
        assert(s.push(l).drop_first() =~= s.drop_first().push(l));
        assert(s.push(l)[0] == s[0]);
        lemma_net_ff_push(s.drop_first(), l, s[0].ff_val(x));
        assert(net_ff_val(s.push(l), x) == net_ff_val(s.drop_first().push(l), s[0].ff_val(x)));
        assert(net_ff_val(s, x) == net_ff_val(s.drop_first(), s[0].ff_val(x)));
    }
}

/// A copy of a scalar vector.
fn copy_row(v: &Vec<i64>) -> (r: Vec<i64>)
    ensures
        r@ == v@,
{
    let mut r: Vec<i64> = Vec::new();
    let mut i: usize = 0;
    while i < v.len()
        invariant
            0 <= i <= v@.len(),
            r@ == v@.take(i as int),
        decreases v@.len() - i,
    {
        r.push(v[i]);
        proof {
            assert(v@.take(i as int + 1) =~= v@.take(i as int).push(v@[i as int]));
        }
        i = i + 1;
    }
    proof {
        assert(v@.take(v@.len() as int) =~= v@);
    }
    r
}

/// Inference: feed the input through every layer in order, with no caching.
/// Fails with `ShapeMismatch` exactly when some layer rejects the width it
/// would be fed.
pub fn feed_forward(input: &Vec<i64>, net: &SeqNet) -> (r: Result<Vec<i64>, NetError>)
    requires
        net.wf(),
        bounded_seq(input@),
    ensures
        (r is Ok) == net_accepts(net.layers@, input@.len() as nat),
        r is Ok ==> r->Ok_0@ == net_ff_val(net.layers@, input@) && bounded_seq(r->Ok_0@)
            && r->Ok_0@.len() == net_out_len(net.layers@, input@.len() as nat),
        r is Err ==> r->Err_0 == NetError::ShapeMismatch,
{
    let ghost ls: Seq<NetLayer> = net.layers@;
    let n: usize = net.layers.len();
    let mut cur: Vec<i64> = copy_row(input);
    let mut i: usize = 0;
    proof {
        assert(ls.skip(0) =~= ls);
        assert(ls.take(0) =~= Seq::<NetLayer>::empty());
    }
    while i < n
        invariant
            0 <= i <= n,
            n == ls.len(),
            ls == net.layers@,
            net.wf(),
            bounded_seq(cur@),
            cur@ == net_ff_val(ls.take(i as int), input@),
            net_accepts(ls, input@.len() as nat) == net_accepts(
                ls.skip(i as int),
                cur@.len() as nat,
            ),
            net_out_len(ls, input@.len() as nat) == net_out_len(
                ls.skip(i as int),
                cur@.len() as nat,
            ),
        decreases n - i,
    {
        proof {
            assert(ls.skip(i as int).drop_first() =~= ls.skip(i as int + 1));
            assert(ls.skip(i as int)[0] == ls[i as int]);
            assert(ls.take(i as int + 1) =~= ls.take(i as int).push(ls[i as int]));
            lemma_net_ff_push(ls.take(i as int), ls[i as int], input@);
        }
        if !net.layers[i].check_accepts(cur.len()) {
            return Err(NetError::ShapeMismatch);
        }
        cur = net.layers[i].feed_forward(&cur);
        i = i + 1;
    }
    proof {
        assert(ls.take(n as int) =~= ls);
        assert(ls.skip(n as int) =~= Seq::<NetLayer>::empty());
    }
    Ok(cur)
}

/// The deep view of a matrix is its rows' views.
proof fn lemma_mat_deep_view(m: &Vec<Vec<i64>>)
    ensures
        m.deep_view().len() == m@.len(),
        forall|i: int| 0 <= i < m@.len() ==> #[trigger] m.deep_view()[i] == m@[i]@,
{
    assert forall|i: int| 0 <= i < m@.len() implies #[trigger] m.deep_view()[i] == m@[i]@ by {
        assert(m.deep_view()[i] =~= m@[i]@);
    }
}

/// One training pass on a single example: forward with caches, output error
/// `output - expected`, then the reverse walk that hands every per-layer
/// gradient, last layer first, to the optimizer's accumulation. Fails with
/// `ShapeMismatch` exactly when the network rejects the input width or the
/// expected output has the wrong width; the optimizer is untouched then.
pub fn back_propagate<T: Optimizer>(
    input: &Vec<i64>,
    expected_out: &Vec<i64>,
    net: &mut SeqNet,
    optim: &mut T,
) -> (r: Result<(), NetError>)
    requires
        old(net).wf(),
        old(optim).wf(),
        old(optim).shape() == net_shape(old(net).layers@),
        bounded_seq(input@),
        bounded_seq(expected_out@),
    ensures
        *final(net) == *old(net),
        (r is Ok) == (net_accepts(old(net).layers@, input@.len() as nat) && expected_out@.len()
            == net_out_len(old(net).layers@, input@.len() as nat)),
        r is Err ==> r->Err_0 == NetError::ShapeMismatch && *final(optim) == *old(optim),
        r is Ok ==> final(optim).wf() && final(optim).shape() == old(optim).shape()
            && final(optim).config() == old(optim).config() && final(optim).persist() == old(
            optim,
        ).persist() && final(optim).acc() == old(optim).acc_updated(
            rev_grads(old(net).layers@, input@, expected_out@),
        ),
{
    let ghost ls: Seq<NetLayer> = net.layers@;
    let ghost x: Seq<i64> = input@;
    let n: usize = net.layers.len();
    let mut ins: Vec<Vec<i64>> = Vec::new();
    let mut caches: Vec<Vec<i64>> = Vec::new();
    let mut cur: Vec<i64> = copy_row(input);
    let mut i: usize = 0;
    proof {
        assert(ls.skip(0) =~= ls);
        assert(ls.take(0) =~= Seq::<NetLayer>::empty());
    }
    while i < n
        invariant
            0 <= i <= n,
            n == ls.len(),
            ls == net.layers@,
            net.wf(),
            x == input@,
            bounded_seq(x),
            bounded_seq(cur@),
            cur@ == ins_at(ls, x, i as int),
            net_accepts(ls, x.len() as nat) == net_accepts(ls.skip(i as int), cur@.len() as nat),
            net_out_len(ls, x.len() as nat) == net_out_len(ls.skip(i as int), cur@.len() as nat),
            ins@.len() == i,
            caches@.len() == i,
            forall|t: int| 0 <= t < i ==> (#[trigger] ins@[t])@ == ins_at(ls, x, t),
            forall|t: int|
                0 <= t < i ==> (#[trigger] caches@[t])@ == ls[t].cache_val(ins_at(ls, x, t)),
            forall|t: int| 0 <= t < i ==> bounded_seq((#[trigger] ins@[t])@),
            forall|t: int| 0 <= t < i ==> bounded_seq((#[trigger] caches@[t])@),
            forall|t: int|
                0 <= t < i ==> (#[trigger] ls[t]).accepts(ins_at(ls, x, t).len() as nat),
            forall|t: int|
                0 <= t < i ==> ins_at(ls, x, t + 1) == (#[trigger] ls[t]).ff_val(
                    ins_at(ls, x, t),
                ),
        decreases n - i,
    {
        proof {
            assert(ls.skip(i as int).drop_first() =~= ls.skip(i as int + 1));
            assert(ls.skip(i as int)[0] == ls[i as int]);
            assert(ls.take(i as int + 1) =~= ls.take(i as int).push(ls[i as int]));
            lemma_net_ff_push(ls.take(i as int), ls[i as int], x);
        }
        if !net.layers[i].check_accepts(cur.len()) {
            return Err(NetError::ShapeMismatch);
        }
        let pair: (Vec<i64>, Vec<i64>) = net.layers[i].d_feed_forward(&cur);
        caches.push(pair.1);
        ins.push(cur);
        cur = pair.0;
        i = i + 1;
    }
    proof {
        assert(ls.take(n as int) =~= ls);
        assert(ls.skip(n as int) =~= Seq::<NetLayer>::empty());
        assert(cur@ == net_ff_val(ls, x));
    }
    if expected_out.len() != cur.len() {
        return Err(NetError::ShapeMismatch);
    }
    let ghost exp: Seq<i64> = expected_out@;
    let m: usize = expected_out.len();
    let mut out_err: Vec<i64> = Vec::new();
    let mut j: usize = 0;
    while j < m
        invariant
            0 <= j <= m,
            m == exp.len(),
            exp == expected_out@,
            m == cur@.len(),
            cur@ == net_ff_val(ls, x),
            bounded_seq(cur@),
            bounded_seq(exp),
            out_err@.len() == j,
            forall|t: int|
                0 <= t < j ==> (#[trigger] out_err@[t]) as int == sub_val(
                    cur@[t] as int,
                    exp[t] as int,
                ),
            bounded_seq(out_err@),
        decreases m - j,
    {
        out_err.push(fx_sub(cur[j], expected_out[j]));
        j = j + 1;
    }
    proof {
        assert(out_err@ =~= out_err_val(ls, x, exp));
        assert(ins_at(ls, x, n as int) == net_ff_val(ls, x));
    }
    let mut errors: Vec<Vec<i64>> = Vec::new();
    let mut k: usize = 0;
    while k < n
        invariant
            0 <= k <= n,
            n == ls.len(),
            ls == net.layers@,
            net.wf(),
            x == input@,
            exp == expected_out@,
            bounded_seq(x),
            bounded_seq(exp),
            ins@.len() == n,
            caches@.len() == n,
            forall|t: int| 0 <= t < n ==> (#[trigger] ins@[t])@ == ins_at(ls, x, t),
            forall|t: int|
                0 <= t < n ==> (#[trigger] caches@[t])@ == ls[t].cache_val(ins_at(ls, x, t)),
            forall|t: int| 0 <= t < n ==> bounded_seq((#[trigger] ins@[t])@),
            forall|t: int| 0 <= t < n ==> bounded_seq((#[trigger] caches@[t])@),
            forall|t: int|
                0 <= t < n ==> (#[trigger] ls[t]).accepts(ins_at(ls, x, t).len() as nat),
            forall|t: int|
                0 <= t < n ==> ins_at(ls, x, t + 1) == (#[trigger] ls[t]).ff_val(
                    ins_at(ls, x, t),
                ),
            out_err@ == err_after(ls, x, exp, k as int),
            bounded_seq(out_err@),
            out_err@.len() == ins_at(ls, x, n - k as int).len(),
            errors@.len() == k,
            forall|t: int| 0 <= t < k ==> (#[trigger] errors@[t])@ == rev_grad_at(ls, x, exp, t),
            forall|t: int|
                0 <= t < k ==> (#[trigger] errors@[t])@.len() == ls[n - 1 - t].spec_param_num(),
            forall|t: int| 0 <= t < k ==> bounded_seq((#[trigger] errors@[t])@),
        decreases n - k,
    {
        let i2: usize = n - 1 - k;
        proof {
            assert(ins_at(ls, x, i2 as int + 1) == ls[i2 as int].ff_val(ins_at(ls, x, i2 as int)));
            assert(ls[i2 as int].grad_ok(out_err@, ins@[i2 as int]@));
            assert(ls[i2 as int].bp_ok(out_err@, caches@[i2 as int]@));
        }
        let g: Vec<i64> = net.layers[i2].calc_err(&out_err, &ins[i2]);
        errors.push(g);
        out_err = net.layers[i2].back_propagate(&out_err, &caches[i2]);
        k = k + 1;
        proof {
            assert(out_err@ == err_after(ls, x, exp, k as int));
        }
    }
    proof {
        lemma_mat_deep_view(&errors);
        assert(errors.deep_view() =~= rev_grads(ls, x, exp));
        assert(rev_shape_ok(net_shape(ls), errors.deep_view()));
    }
    optim.reversed_update(&errors);
    Ok(())
}

/// Fold of one example's squared output errors onto a running total.
pub open spec fn loss_row_val(out: Seq<i64>, exp: Seq<i64>, acc: int, j: int) -> int
    decreases j,
{
    if j <= 0 {
        acc
    } else {
        add_val(
            loss_row_val(out, exp, acc, j - 1),
            mul_val(
                sub_val(out[j - 1] as int, exp[j - 1] as int),
                sub_val(out[j - 1] as int, exp[j - 1] as int),
            ),
        )
    }
}

/// Total loss over the first `i` examples: the sum of squared differences
/// between each network output and its expected output.
pub open spec fn loss_val(ins: Seq<Seq<i64>>, exps: Seq<Seq<i64>>, ls: Seq<NetLayer>, i: int) -> int
    decreases i,
{
    if i <= 0 {
        0
    } else {
        loss_row_val(
            net_ff_val(ls, ins[i - 1]),
            exps[i - 1],
            loss_val(ins, exps, ls, i - 1),
            exps[i - 1].len() as int,
        )
    }
}

/// Every example's input is accepted and its expected output has the
/// network's output width.
pub open spec fn loss_shapes_ok(ins: Seq<Seq<i64>>, exps: Seq<Seq<i64>>, ls: Seq<NetLayer>) -> bool {
    &&& ins.len() <= exps.len()
    &&& forall|i: int|
        0 <= i < ins.len() ==> net_accepts(ls, (#[trigger] ins[i]).len() as nat) && exps[i].len()
            == net_out_len(ls, ins[i].len() as nat)
}

/// Diagnostic loss: the sum over all examples of the squared per-element
/// differences between the network's output and the expected output.
pub fn loss(ins: &Vec<Vec<i64>>, expected_outs: &Vec<Vec<i64>>, net: &SeqNet) -> (r: Result<
    i64,
    NetError,
>)
    requires
        net.wf(),
        bounded_mat(ins.deep_view()),
        bounded_mat(expected_outs.deep_view()),
    ensures
        (r is Ok) == loss_shapes_ok(ins.deep_view(), expected_outs.deep_view(), net.layers@),
        r is Ok ==> r->Ok_0 as int == loss_val(
            ins.deep_view(),
            expected_outs.deep_view(),
            net.layers@,
            ins.deep_view().len() as int,
        ) && fx_bounded(r->Ok_0),
        r is Err ==> r->Err_0 == NetError::ShapeMismatch,
{
    proof {
        lemma_mat_deep_view(ins);
        lemma_mat_deep_view(expected_outs);
    }
    let ghost ls: Seq<NetLayer> = net.layers@;
    let ghost insd: Seq<Seq<i64>> = ins.deep_view();
    let ghost expsd: Seq<Seq<i64>> = expected_outs.deep_view();
    if expected_outs.len() < ins.len() {
        return Err(NetError::ShapeMismatch);
    }
    let mut error: i64 = 0;
    let mut i: usize = 0;
    while i < ins.len()
        invariant
            0 <= i <= ins@.len(),
            ls == net.layers@,
            net.wf(),
            insd == ins.deep_view(),
            expsd == expected_outs.deep_view(),
            insd.len() == ins@.len(),
            expsd.len() == expected_outs@.len(),
            ins@.len() <= expected_outs@.len(),
            forall|t: int| 0 <= t < insd.len() ==> #[trigger] insd[t] == ins@[t]@,
            forall|t: int| 0 <= t < expsd.len() ==> #[trigger] expsd[t] == expected_outs@[t]@,
            bounded_mat(insd),
            bounded_mat(expsd),
            forall|t: int|
                0 <= t < i ==> net_accepts(ls, (#[trigger] insd[t]).len() as nat) && expsd[t].len()
                    == net_out_len(ls, insd[t].len() as nat),
            error as int == loss_val(insd, expsd, ls, i as int),
            fx_bounded(error),
        decreases ins@.len() - i,
    {
        proof {
            assert(insd[i as int] == ins@[i as int]@);
            assert(bounded_seq(insd[i as int]));
            assert(expsd[i as int] == expected_outs@[i as int]@);
            assert(bounded_seq(expsd[i as int]));
        }
        let out: Vec<i64> = match feed_forward(&ins[i], net) {
            Ok(o) => o,
            Err(_) => {
                proof {
                    assert(!net_accepts(ls, insd[i as int].len() as nat));
                }
                return Err(NetError::ShapeMismatch);
            },
        };
        if expected_outs[i].len() != out.len() {
            proof {
                assert(expsd[i as int].len() != net_out_len(ls, insd[i as int].len() as nat));
            }
            return Err(NetError::ShapeMismatch);
        }
        let row: &Vec<i64> = &expected_outs[i];
        let mut j: usize = 0;
        let ghost acc0: int = error as int;
        while j < row.len()
            invariant
                0 <= j <= row@.len(),
                row@ == expsd[i as int],
                out@ == net_ff_val(ls, insd[i as int]),
                out@.len() == row@.len(),
                0 <= i < insd.len(),
                insd == ins.deep_view(),
                expsd == expected_outs.deep_view(),
                bounded_seq(out@),
                bounded_seq(row@),
                error as int == loss_row_val(out@, row@, acc0, j as int),
                fx_bounded(error),
            decreases row@.len() - j,
        {
            let d: i64 = fx_sub(out[j], row[j]);
            error = fx_add(error, fx_mul(d, d));
            j = j + 1;
        }
        i = i + 1;
    }
    Ok(error)
}

/// Drain the optimizer into one step vector per layer and subtract each from
/// its layer's parameters in place.
pub fn step<T: Optimizer>(net: &mut SeqNet, optim: &mut T)
    requires
        old(net).wf(),
        old(optim).wf(),
        old(optim).shape() == net_shape(old(net).layers@),
    ensures
        final(net).wf(),
        final(net).layers@.len() == old(net).layers@.len(),
        forall|i: int|
            0 <= i < old(net).layers@.len() ==> (#[trigger] old(net).layers@[i]).step_rel(
                old(optim).step_out()[i],
                final(net).layers@[i],
            ),
        final(optim).wf(),
        final(optim).shape() == old(optim).shape(),
        final(optim).config() == old(optim).config(),
        final(optim).acc() == zero_mat(old(optim).shape()),
        final(optim).persist() == old(optim).persist_after(),
{
    let ghost ls0: Seq<NetLayer> = net.layers@;
    let steps: Vec<Vec<i64>> = optim.get_step();
    proof {
        lemma_mat_deep_view(&steps);
    }
    let n: usize = net.layers.len();
    let mut i: usize = 0;
    while i < n
        invariant
            0 <= i <= n,
            n == ls0.len(),
            net.layers@.len() == n,
            steps@.len() == n,
            steps.deep_view().len() == n,
            forall|t: int| 0 <= t < n ==> #[trigger] steps.deep_view()[t] == steps@[t]@,
            mat_shape_ok(steps.deep_view(), net_shape(ls0)),
            bounded_mat(steps.deep_view()),
            forall|t: int| 0 <= t < i ==> (#[trigger] ls0[t]).step_rel(
                steps.deep_view()[t],
                net.layers@[t],
            ),
            forall|t: int| 0 <= t < i ==> (#[trigger] net.layers@[t]).wf(),
            forall|t: int| i <= t < n ==> #[trigger] net.layers@[t] == ls0[t],
            net_wf(ls0),
        decreases n - i,
    {
        proof {
            assert(steps.deep_view()[i as int] == steps@[i as int]@);
            assert(bounded_seq(steps@[i as int]@));
            assert(steps@[i as int]@.len() == net_shape(ls0)[i as int]);
            assert(net.layers@[i as int] == ls0[i as int]);
        }
        net.layers[i].step(&steps[i]);
        i = i + 1;
    }
}

/// The row lengths of a matrix.
pub open spec fn mat_lens(m: Seq<Seq<i64>>) -> Seq<nat> {
    Seq::new(m.len(), |i: int| m[i].len())
}

/// Every element of every row is non-negative.
pub open spec fn nonneg_mat(m: Seq<Seq<i64>>) -> bool {
    forall|i: int, j: int|
        0 <= i < m.len() && 0 <= j < m[i].len() ==> (#[trigger] m[i][j]) as int >= 0
}

/// A vector of `n` zero scalars.
fn zero_vec(n: usize) -> (r: Vec<i64>)
    ensures
        r@ == Seq::new(n as nat, |j: int| 0i64),
{
    let mut r: Vec<i64> = Vec::new();
    let mut i: usize = 0;
    while i < n
        invariant
            0 <= i <= n,
            r@.len() == i,
            forall|j: int| 0 <= j < i ==> (#[trigger] r@[j]) == 0i64,
        decreases n - i,
    {
        r.push(0);
        i = i + 1;
    }
    proof {
        assert(r@ =~= Seq::new(n as nat, |j: int| 0i64));
    }
    r
}

/// One zero accumulator row per network layer, each sized to that layer's
/// parameter count.
fn zero_caches(net: &SeqNet) -> (r: Vec<Vec<i64>>)
    requires
        net_wf(net.layers@),
    ensures
        r.deep_view() == zero_mat(net_shape(net.layers@)),
        mat_lens(r.deep_view()) == net_shape(net.layers@),
{
    let n: usize = net.layers.len();
    let mut r: Vec<Vec<i64>> = Vec::new();
    let mut i: usize = 0;
    while i < n
        invariant
            0 <= i <= n,
            n == net.layers@.len(),
            net_wf(net.layers@),
            r@.len() == i,
            forall|t: int|
                0 <= t < i ==> (#[trigger] r@[t])@ == Seq::new(
                    net.layers@[t].spec_param_num(),
                    |j: int| 0i64,
                ),
        decreases n - i,
    {
        let p: usize = net.layers[i].param_num();
        r.push(zero_vec(p));
        i = i + 1;
    }
    proof {
        lemma_mat_deep_view(&r);
        assert(r.deep_view() =~~= zero_mat(net_shape(net.layers@)));
        assert(mat_lens(r.deep_view()) =~= net_shape(net.layers@));
    }
    r
}

/// A copy of a matrix.
fn copy_mat(m: &Vec<Vec<i64>>) -> (r: Vec<Vec<i64>>)
    ensures
        r.deep_view() == m.deep_view(),
{
    let n: usize = m.len();
    let mut r: Vec<Vec<i64>> = Vec::new();
    let mut i: usize = 0;
    while i < n
        invariant
            0 <= i <= n,
            n == m@.len(),
            r@.len() == i,
            forall|t: int| 0 <= t < i ==> (#[trigger] r@[t])@ == m@[t]@,
        decreases n - i,
    {
        r.push(copy_row(&m[i]));
        i = i + 1;
    }
    proof {
        lemma_mat_deep_view(&r);
        lemma_mat_deep_view(m);
        assert(r.deep_view() =~~= m.deep_view());
    }
    r
}

/// Shared accumulation loop of SGD and momentum: `cache[i] += errs_rev * lr`.
fn scaled_update_rows(cache: &Vec<Vec<i64>>, errors: &Vec<Vec<i64>>, lr: i64) -> (r: Vec<Vec<i64>>)
    requires
        fx_bounded(lr),
        bounded_mat(cache.deep_view()),
        bounded_mat(errors.deep_view()),
        errors.deep_view().len() == cache.deep_view().len(),
        forall|i: int|
            0 <= i < cache.deep_view().len() ==> (#[trigger] errors.deep_view()[cache.deep_view().len()
                - 1 - i]).len() == cache.deep_view()[i].len(),
    ensures
        r.deep_view() == scaled_acc_update(cache.deep_view(), errors.deep_view(), lr),
        bounded_mat(r.deep_view()),
        mat_lens(r.deep_view()) == mat_lens(cache.deep_view()),
{
    proof {
        lemma_mat_deep_view(cache);
        lemma_mat_deep_view(errors);
        assert forall|t: int| 0 <= t < cache@.len() implies (#[trigger] errors@[cache@.len() - 1
            - t])@.len() == cache@[t]@.len() by {
            assert(errors.deep_view()[cache@.len() - 1 - t].len() == cache.deep_view()[t].len());
        }
    }
    let n: usize = cache.len();
    let mut r: Vec<Vec<i64>> = Vec::new();
    let mut i: usize = 0;
    while i < n
        invariant
            0 <= i <= n,
            n == cache@.len(),
            errors@.len() == n,
            fx_bounded(lr),
            bounded_mat(cache.deep_view()),
            bounded_mat(errors.deep_view()),
            forall|t: int| 0 <= t < n ==> #[trigger] cache.deep_view()[t] == cache@[t]@,
            forall|t: int| 0 <= t < n ==> #[trigger] errors.deep_view()[t] == errors@[t]@,
            forall|t: int| 0 <= t < n ==> (#[trigger] errors@[n - 1 - t])@.len() == cache@[t]@.len(),
            r@.len() == i,
            forall|t: int|
                0 <= t < i ==> (#[trigger] r@[t])@ == Seq::new(
                    cache@[t]@.len(),
                    |j: int|
                        add_val(
                            cache@[t]@[j] as int,
                            mul_val(errors@[n - 1 - t]@[j] as int, lr as int),
                        ) as i64,
                ),
            forall|t: int| 0 <= t < i ==> bounded_seq((#[trigger] r@[t])@),
        decreases n - i,
    {
        let act: usize = n - 1 - i;
        proof {
            assert(bounded_seq(cache.deep_view()[i as int]));
            assert(bounded_seq(errors.deep_view()[act as int]));
            assert(cache.deep_view()[i as int] == cache@[i as int]@);
            assert(errors.deep_view()[act as int] == errors@[act as int]@);
        }
        let w: usize = cache[i].len();
        let mut row: Vec<i64> = Vec::new();
        let mut j: usize = 0;
        while j < w
            invariant
                0 <= j <= w,
                0 <= i < n,
                act == n - 1 - i,
                n == cache@.len(),
                errors@.len() == n,
                fx_bounded(lr),
                w == cache@[i as int]@.len(),
                errors@[act as int]@.len() == w,
                bounded_seq(cache@[i as int]@),
                bounded_seq(errors@[act as int]@),
                row@.len() == j,
                forall|t: int|
                    0 <= t < j ==> (#[trigger] row@[t]) as int == add_val(
                        cache@[i as int]@[t] as int,
                        mul_val(errors@[act as int]@[t] as int, lr as int),
                    ),
                bounded_seq(row@),
            decreases w - j,
        {
            row.push(fx_add(cache[i][j], fx_mul(errors[act][j], lr)));
            j = j + 1;
        }
        proof {
            assert(row@ =~= Seq::new(
                cache@[i as int]@.len(),
                |t: int|
                    add_val(
                        cache@[i as int]@[t] as int,
                        mul_val(errors@[n - 1 - i as int]@[t] as int, lr as int),
                    ) as i64,
            ));
        }
        r.push(row);
        i = i + 1;
    }
    proof {
        lemma_mat_deep_view(&r);
        assert(r.deep_view() =~~= scaled_acc_update(cache.deep_view(), errors.deep_view(), lr));
        assert(mat_lens(r.deep_view()) =~= mat_lens(cache.deep_view()));
    }
    r
}


/// A zero matrix with the same row lengths as the given one.
fn zero_like(m: &Vec<Vec<i64>>) -> (r: Vec<Vec<i64>>)
    ensures
        r.deep_view() == zero_mat(mat_lens(m.deep_view())),
{
    proof {
        lemma_mat_deep_view(m);
    }
    let n: usize = m.len();
    let mut z: Vec<Vec<i64>> = Vec::new();
    let mut i: usize = 0;
    while i < n
        invariant
            0 <= i <= n,
            n == m@.len(),
            z@.len() == i,
            forall|t: int|
                0 <= t < i ==> (#[trigger] z@[t])@ == Seq::new(m@[t]@.len(), |j: int| 0i64),
        decreases n - i,
    {
        z.push(zero_vec(m[i].len()));
        i = i + 1;
    }
    proof {
        lemma_mat_deep_view(&z);
        lemma_mat_deep_view(m);
        assert(z.deep_view() =~~= zero_mat(mat_lens(m.deep_view())));
    }
    z
}

/// Plain gradient descent: the accumulator absorbs learning-rate-scaled
/// gradients and is returned unchanged as the step.
pub struct SGD {
    pub lr: i64,
    pub cache: Vec<Vec<i64>>,
}

impl SGD {
    /// An SGD optimizer with zero accumulators shaped after the network.
    pub fn new(net: &SeqNet, lr: i64) -> (r: SGD)
        requires
            net_wf(net.layers@),
            fx_bounded(lr),
        ensures
            r.wf(),
            r.shape() == net_shape(net.layers@),
            r.acc() == zero_mat(net_shape(net.layers@)),
            r.persist() == Seq::<Seq<i64>>::empty(),
            r.lr == lr,
    {
        let r = SGD { lr, cache: zero_caches(net) };
        proof {
            assert(bounded_mat(r.cache.deep_view()));
        }
        r
    }
}

impl Optimizer for SGD {
    open spec fn wf(&self) -> bool {
        fx_bounded(self.lr) && bounded_mat(self.cache.deep_view())
    }

    open spec fn shape(&self) -> Seq<nat> {
        mat_lens(self.cache.deep_view())
    }

    open spec fn acc(&self) -> Seq<Seq<i64>> {
        self.cache.deep_view()
    }

    open spec fn persist(&self) -> Seq<Seq<i64>> {
        Seq::empty()
    }

    open spec fn config(&self) -> Seq<i64> {
        seq![self.lr]
    }

    open spec fn acc_updated(&self, errs: Seq<Seq<i64>>) -> Seq<Seq<i64>> {
        scaled_acc_update(self.cache.deep_view(), errs, self.lr)
    }

    open spec fn step_out(&self) -> Seq<Seq<i64>> {
        self.cache.deep_view()
    }

    open spec fn persist_after(&self) -> Seq<Seq<i64>> {
        Seq::empty()
    }

    fn reversed_update(&mut self, errors: &Vec<Vec<i64>>) {
        let nc: Vec<Vec<i64>> = scaled_update_rows(&self.cache, errors, self.lr);
        self.cache = nc;
    }

    fn get_step(&mut self) -> (r: Vec<Vec<i64>>) {
        let ret: Vec<Vec<i64>> = copy_mat(&self.cache);
        let z: Vec<Vec<i64>> = zero_like(&self.cache);
        self.cache = z;
        proof {
            assert(mat_lens(zero_mat(old(self).shape())) =~= old(self).shape());
            assert(mat_shape_ok(ret.deep_view(), old(self).shape()));
        }
        ret
    }
}

/// Exponential mix of the persistent state and the fresh accumulator:
/// `p * m0 + a * m1`, elementwise.
pub open spec fn mom_mix(p: Seq<Seq<i64>>, a: Seq<Seq<i64>>, m0: i64, m1: i64) -> Seq<Seq<i64>> {
    Seq::new(
        p.len(),
        |i: int|
            Seq::new(
                p[i].len(),
                |j: int|
                    add_val(
                        mul_val(p[i][j] as int, m0 as int),
                        mul_val(a[i][j] as int, m1 as int),
                    ) as i64,
            ),
    )
}

/// Elementwise `p * m0 + a * m1` over two matrices of equal shape.
fn mom_mix_rows(p: &Vec<Vec<i64>>, a: &Vec<Vec<i64>>, m0: i64, m1: i64) -> (r: Vec<Vec<i64>>)
    requires
        fx_bounded(m0),
        fx_bounded(m1),
        bounded_mat(p.deep_view()),
        bounded_mat(a.deep_view()),
        mat_lens(p.deep_view()) == mat_lens(a.deep_view()),
    ensures
        r.deep_view() == mom_mix(p.deep_view(), a.deep_view(), m0, m1),
        bounded_mat(r.deep_view()),
        mat_lens(r.deep_view()) == mat_lens(p.deep_view()),
{
    proof {
        lemma_mat_deep_view(p);
        lemma_mat_deep_view(a);
        assert(mat_lens(p.deep_view()).len() == p.deep_view().len());
        assert(mat_lens(a.deep_view()).len() == a.deep_view().len());
        assert(p@.len() == a@.len());
        assert forall|t: int| 0 <= t < p@.len() implies (#[trigger] a@[t])@.len()
            == p@[t]@.len() by {
            assert(mat_lens(p.deep_view())[t] == p.deep_view()[t].len());
            assert(mat_lens(a.deep_view())[t] == a.deep_view()[t].len());
            assert(p.deep_view()[t] == p@[t]@);
            assert(a.deep_view()[t] == a@[t]@);
        }
    }
    let n: usize = p.len();
    let mut r: Vec<Vec<i64>> = Vec::new();
    let mut i: usize = 0;
    while i < n
        invariant
            0 <= i <= n,
            n == p@.len(),
            a@.len() == n,
            fx_bounded(m0),
            fx_bounded(m1),
            bounded_mat(p.deep_view()),
            bounded_mat(a.deep_view()),
            forall|t: int| 0 <= t < n ==> #[trigger] p.deep_view()[t] == p@[t]@,
            forall|t: int| 0 <= t < n ==> #[trigger] a.deep_view()[t] == a@[t]@,
            forall|t: int| 0 <= t < n ==> (#[trigger] a@[t])@.len() == p@[t]@.len(),
            r@.len() == i,
            forall|t: int|
                0 <= t < i ==> (#[trigger] r@[t])@ == Seq::new(
                    p@[t]@.len(),
                    |j: int|
                        add_val(
                            mul_val(p@[t]@[j] as int, m0 as int),
                            mul_val(a@[t]@[j] as int, m1 as int),
                        ) as i64,
                ),
            forall|t: int| 0 <= t < i ==> bounded_seq((#[trigger] r@[t])@),
        decreases n - i,
    {
        proof {
            assert(bounded_seq(p.deep_view()[i as int]));
            assert(bounded_seq(a.deep_view()[i as int]));
        }
        let w: usize = p[i].len();
        let mut row: Vec<i64> = Vec::new();
        let mut j: usize = 0;
        while j < w
            invariant
                0 <= j <= w,
                0 <= i < n,
                n == p@.len(),
                a@.len() == n,
                fx_bounded(m0),
                fx_bounded(m1),
                w == p@[i as int]@.len(),
                a@[i as int]@.len() == w,
                bounded_seq(p@[i as int]@),
                bounded_seq(a@[i as int]@),
                row@.len() == j,
                forall|t: int|
                    0 <= t < j ==> (#[trigger] row@[t]) as int == add_val(
                        mul_val(p@[i as int]@[t] as int, m0 as int),
                        mul_val(a@[i as int]@[t] as int, m1 as int),
                    ),
                bounded_seq(row@),
            decreases w - j,
        {
            row.push(fx_add(fx_mul(p[i][j], m0), fx_mul(a[i][j], m1)));
            j = j + 1;
        }
        proof {
            assert(row@ =~= Seq::new(
                p@[i as int]@.len(),
                |t: int|
                    add_val(
                        mul_val(p@[i as int]@[t] as int, m0 as int),
                        mul_val(a@[i as int]@[t] as int, m1 as int),
                    ) as i64,
            ));
        }
        r.push(row);
        i = i + 1;
    }
    proof {
        lemma_mat_deep_view(&r);
        assert(r.deep_view() =~~= mom_mix(p.deep_view(), a.deep_view(), m0, m1));
        assert(mat_lens(r.deep_view()) =~= mat_lens(p.deep_view()));
    }
    r
}

/// Gradient descent with momentum: steps are an exponential moving average of
/// the accumulated, learning-rate-scaled gradients.
pub struct SGDwMomentum {
    pub lr: i64,
    pub mom0: i64,
    pub mom1: i64,
    pub cache: Vec<Vec<i64>>,
    pub mom_cache: Vec<Vec<i64>>,
}

impl SGDwMomentum {
    /// A momentum optimizer with zero accumulator and zero momentum, shaped
    /// after the network; `mom0` is the decay `mom`, `mom1` its complement
    /// `1 - mom`.
    pub fn new(net: &SeqNet, lr: i64, mom: i64) -> (r: SGDwMomentum)
        requires
            net_wf(net.layers@),
            fx_bounded(lr),
            fx_bounded(mom),
        ensures
            r.wf(),
            r.shape() == net_shape(net.layers@),
            r.acc() == zero_mat(net_shape(net.layers@)),
            r.persist() == zero_mat(net_shape(net.layers@)),
            r.lr == lr,
            r.mom0 == mom,
            r.mom1 as int == sub_val(SCALE as int, mom as int),
    {
        let cache: Vec<Vec<i64>> = zero_caches(net);
        let mom_cache: Vec<Vec<i64>> = zero_caches(net);
        let r = SGDwMomentum { lr, mom0: mom, mom1: fx_sub(SCALE, mom), cache, mom_cache };
        proof {
            assert(bounded_mat(r.cache.deep_view()));
            assert(bounded_mat(r.mom_cache.deep_view()));
        }
        r
    }
}

impl Optimizer for SGDwMomentum {
    open spec fn wf(&self) -> bool {
        &&& fx_bounded(self.lr)
        &&& fx_bounded(self.mom0)
        &&& fx_bounded(self.mom1)
        &&& bounded_mat(self.cache.deep_view())
        &&& bounded_mat(self.mom_cache.deep_view())
        &&& mat_lens(self.mom_cache.deep_view()) == mat_lens(self.cache.deep_view())
    }

    open spec fn shape(&self) -> Seq<nat> {
        mat_lens(self.cache.deep_view())
    }

    open spec fn acc(&self) -> Seq<Seq<i64>> {
        self.cache.deep_view()
    }

    open spec fn persist(&self) -> Seq<Seq<i64>> {
        self.mom_cache.deep_view()
    }

    open spec fn config(&self) -> Seq<i64> {
        seq![self.lr, self.mom0, self.mom1]
    }

    open spec fn acc_updated(&self, errs: Seq<Seq<i64>>) -> Seq<Seq<i64>> {
        scaled_acc_update(self.cache.deep_view(), errs, self.lr)
    }

    open spec fn step_out(&self) -> Seq<Seq<i64>> {
        mom_mix(self.mom_cache.deep_view(), self.cache.deep_view(), self.mom0, self.mom1)
    }

    open spec fn persist_after(&self) -> Seq<Seq<i64>> {
        mom_mix(self.mom_cache.deep_view(), self.cache.deep_view(), self.mom0, self.mom1)
    }

    fn reversed_update(&mut self, errors: &Vec<Vec<i64>>) {
        let nc: Vec<Vec<i64>> = scaled_update_rows(&self.cache, errors, self.lr);
        self.cache = nc;
    }

    fn get_step(&mut self) -> (r: Vec<Vec<i64>>) {
        let nm: Vec<Vec<i64>> = mom_mix_rows(&self.mom_cache, &self.cache, self.mom0, self.mom1);
        let ret: Vec<Vec<i64>> = copy_mat(&nm);
        self.mom_cache = nm;
        let z: Vec<Vec<i64>> = zero_like(&self.cache);
        self.cache = z;
        proof {
            assert(mat_lens(zero_mat(old(self).shape())) =~= old(self).shape());
            assert(mat_shape_ok(ret.deep_view(), old(self).shape()));
        }
        ret
    }
}

/// Decayed second moment: `p * b0 + a^2 * b1`, elementwise.
pub open spec fn rms_moment(p: Seq<Seq<i64>>, a: Seq<Seq<i64>>, b0: i64, b1: i64) -> Seq<
    Seq<i64>,
> {
    Seq::new(
        p.len(),
        |i: int|
            Seq::new(
                p[i].len(),
                |j: int|
                    add_val(
                        mul_val(p[i][j] as int, b0 as int),
                        mul_val(mul_val(a[i][j] as int, a[i][j] as int), b1 as int),
                    ) as i64,
            ),
    )
}

/// RMSProp step: each accumulated gradient divided by the root of its decayed
/// second moment (plus the epsilon guard), scaled by the learning rate.
pub open spec fn rms_step(a: Seq<Seq<i64>>, m: Seq<Seq<i64>>, lr: i64) -> Seq<Seq<i64>> {
    Seq::new(
        a.len(),
        |i: int|
            Seq::new(
                a[i].len(),
                |j: int|
                    mul_val(
                        div_val(a[i][j] as int, sqrt_val(m[i][j] as int) + FX_EPS as int),
                        lr as int,
                    ) as i64,
            ),
    )
}

/// RMSProp: raw gradients are accumulated; the step divides each by a running
/// root mean square of past gradients, normalising the step size per
/// parameter.
pub struct RMSProp {
    pub lr: i64,
    pub beta0: i64,
    pub beta1: i64,
    pub cache0: Vec<Vec<i64>>,
    pub cache1: Vec<Vec<i64>>,
}

impl RMSProp {
    /// An RMSProp optimizer with zero accumulator and zero second moment,
    /// shaped after the network; `beta0` is the decay `beta`, `beta1` its
    /// complement `1 - beta`.
    pub fn new(net: &SeqNet, lr: i64, beta: i64) -> (r: RMSProp)
        requires
            net_wf(net.layers@),
            fx_bounded(lr),
            0 <= beta <= SCALE,
        ensures
            r.wf(),
            r.shape() == net_shape(net.layers@),
            r.acc() == zero_mat(net_shape(net.layers@)),
            r.persist() == zero_mat(net_shape(net.layers@)),
            r.lr == lr,
            r.beta0 == beta,
            r.beta1 as int == SCALE as int - beta as int,
    {
        let cache0: Vec<Vec<i64>> = zero_caches(net);
        let cache1: Vec<Vec<i64>> = zero_caches(net);
        let r = RMSProp { lr, beta0: beta, beta1: SCALE - beta, cache0, cache1 };
        proof {
            assert(bounded_mat(r.cache0.deep_view()));
            assert(bounded_mat(r.cache1.deep_view()));
            assert(nonneg_mat(r.cache1.deep_view()));
        }
        r
    }
}

impl Optimizer for RMSProp {
    open spec fn wf(&self) -> bool {
        &&& fx_bounded(self.lr)
        &&& 0 <= self.beta0 <= FX_MAX
        &&& 0 <= self.beta1 <= FX_MAX
        &&& bounded_mat(self.cache0.deep_view())
        &&& bounded_mat(self.cache1.deep_view())
        &&& nonneg_mat(self.cache1.deep_view())
        &&& mat_lens(self.cache1.deep_view()) == mat_lens(self.cache0.deep_view())
    }

    open spec fn shape(&self) -> Seq<nat> {
        mat_lens(self.cache0.deep_view())
    }

    open spec fn acc(&self) -> Seq<Seq<i64>> {
        self.cache0.deep_view()
    }

    open spec fn persist(&self) -> Seq<Seq<i64>> {
        self.cache1.deep_view()
    }

    open spec fn config(&self) -> Seq<i64> {
        seq![self.lr, self.beta0, self.beta1]
    }

    open spec fn acc_updated(&self, errs: Seq<Seq<i64>>) -> Seq<Seq<i64>> {
        raw_acc_update(self.cache0.deep_view(), errs)
    }

    open spec fn step_out(&self) -> Seq<Seq<i64>> {
        rms_step(
            self.cache0.deep_view(),
            rms_moment(self.cache1.deep_view(), self.cache0.deep_view(), self.beta0, self.beta1),
            self.lr,
        )
    }

    open spec fn persist_after(&self) -> Seq<Seq<i64>> {
        rms_moment(self.cache1.deep_view(), self.cache0.deep_view(), self.beta0, self.beta1)
    }

    fn reversed_update(&mut self, errors: &Vec<Vec<i64>>) {
        proof {
            lemma_mat_deep_view(&self.cache0);
            lemma_mat_deep_view(errors);
            assert forall|t: int| 0 <= t < self.cache0@.len() implies (#[trigger] errors@[
                self.cache0@.len() - 1 - t])@.len() == self.cache0@[t]@.len() by {
                assert(errors.deep_view()[self.cache0@.len() - 1 - t].len()
                    == self.cache0.deep_view()[t].len());
            }
        }
        let ghost acc0: Seq<Seq<i64>> = self.cache0.deep_view();
        let n: usize = self.cache0.len();
        let mut r: Vec<Vec<i64>> = Vec::new();
        let mut i: usize = 0;
        while i < n
            invariant
                0 <= i <= n,
                n == self.cache0@.len(),
                errors@.len() == n,
                bounded_mat(self.cache0.deep_view()),
                bounded_mat(errors.deep_view()),
                forall|t: int|
                    0 <= t < n ==> #[trigger] self.cache0.deep_view()[t] == self.cache0@[t]@,
                forall|t: int| 0 <= t < n ==> #[trigger] errors.deep_view()[t] == errors@[t]@,
                forall|t: int|
                    0 <= t < n ==> (#[trigger] errors@[n - 1 - t])@.len()
                        == self.cache0@[t]@.len(),
                acc0 == self.cache0.deep_view(),
                r@.len() == i,
                forall|t: int|
                    0 <= t < i ==> (#[trigger] r@[t])@ == Seq::new(
                        self.cache0@[t]@.len(),
                        |j: int|
                            add_val(
                                self.cache0@[t]@[j] as int,
                                errors@[n - 1 - t]@[j] as int,
                            ) as i64,
                    ),
                forall|t: int| 0 <= t < i ==> bounded_seq((#[trigger] r@[t])@),
            decreases n - i,
        {
            let act: usize = n - 1 - i;
            proof {
                assert(bounded_seq(self.cache0.deep_view()[i as int]));
                assert(bounded_seq(errors.deep_view()[act as int]));
            }
            let w: usize = self.cache0[i].len();
            let mut row: Vec<i64> = Vec::new();
            let mut j: usize = 0;
            while j < w
                invariant
                    0 <= j <= w,
                    0 <= i < n,
                    act == n - 1 - i,
                    n == self.cache0@.len(),
                    errors@.len() == n,
                    w == self.cache0@[i as int]@.len(),
                    errors@[act as int]@.len() == w,
                    bounded_seq(self.cache0@[i as int]@),
                    bounded_seq(errors@[act as int]@),
                    row@.len() == j,
                    forall|t: int|
                        0 <= t < j ==> (#[trigger] row@[t]) as int == add_val(
                            self.cache0@[i as int]@[t] as int,
                            errors@[act as int]@[t] as int,
                        ),
                    bounded_seq(row@),
                decreases w - j,
            {
                row.push(fx_add(self.cache0[i][j], errors[act][j]));
                j = j + 1;
            }
            proof {
                assert(row@ =~= Seq::new(
                    self.cache0@[i as int]@.len(),
                    |t: int|
                        add_val(
                            self.cache0@[i as int]@[t] as int,
                            errors@[n - 1 - i as int]@[t] as int,
                        ) as i64,
                ));
            }
            r.push(row);
            i = i + 1;
        }
        proof {
            lemma_mat_deep_view(&r);
            assert(r.deep_view() =~~= raw_acc_update(acc0, errors.deep_view()));
            assert(mat_lens(r.deep_view()) =~= mat_lens(acc0));
        }
        self.cache0 = r;
        proof {
            assert(mat_lens(self.cache1.deep_view()) == mat_lens(self.cache0.deep_view()));
        }
    }

    fn get_step(&mut self) -> (r: Vec<Vec<i64>>) {
        proof {
            lemma_mat_deep_view(&self.cache0);
            lemma_mat_deep_view(&self.cache1);
            assert(mat_lens(self.cache0.deep_view()).len() == self.cache0.deep_view().len());
            assert(mat_lens(self.cache1.deep_view()).len() == self.cache1.deep_view().len());
            assert(self.cache0@.len() == self.cache1@.len());
            assert forall|t: int| 0 <= t < self.cache0@.len() implies (#[trigger] self.cache1@[
                t])@.len() == self.cache0@[t]@.len() by {
                assert(mat_lens(self.cache0.deep_view())[t] == self.cache0.deep_view()[t].len());
                assert(mat_lens(self.cache1.deep_view())[t] == self.cache1.deep_view()[t].len());
                assert(self.cache0.deep_view()[t] == self.cache0@[t]@);
                assert(self.cache1.deep_view()[t] == self.cache1@[t]@);
            }
        }
        let ghost a0: Seq<Seq<i64>> = self.cache0.deep_view();
        let ghost p0: Seq<Seq<i64>> = self.cache1.deep_view();
        let ghost m0: Seq<Seq<i64>> = rms_moment(p0, a0, self.beta0, self.beta1);
        let n: usize = self.cache0.len();
        let mut nm: Vec<Vec<i64>> = Vec::new();
        let mut ret: Vec<Vec<i64>> = Vec::new();
        let mut i: usize = 0;
        while i < n
            invariant
                0 <= i <= n,
                n == self.cache0@.len(),
                self.cache1@.len() == n,
                fx_bounded(self.lr),
                0 <= self.beta0 <= FX_MAX,
                0 <= self.beta1 <= FX_MAX,
                bounded_mat(self.cache0.deep_view()),
                bounded_mat(self.cache1.deep_view()),
                nonneg_mat(self.cache1.deep_view()),
                forall|t: int|
                    0 <= t < n ==> #[trigger] self.cache0.deep_view()[t] == self.cache0@[t]@,
                forall|t: int|
                    0 <= t < n ==> #[trigger] self.cache1.deep_view()[t] == self.cache1@[t]@,
                forall|t: int| 0 <= t < n ==> (#[trigger] self.cache1@[t])@.len()
                    == self.cache0@[t]@.len(),
                a0 == self.cache0.deep_view(),
                p0 == self.cache1.deep_view(),
                m0 == rms_moment(p0, a0, self.beta0, self.beta1),
                nm@.len() == i,
                ret@.len() == i,
                forall|t: int| 0 <= t < i ==> (#[trigger] nm@[t])@ == m0[t],
                forall|t: int| 0 <= t < i ==> bounded_seq((#[trigger] nm@[t])@),
                forall|t: int|
                    0 <= t < i ==> forall|j: int|
                        0 <= j < (#[trigger] nm@[t])@.len() ==> nm@[t]@[j] >= 0,
                forall|t: int|
                    0 <= t < i ==> (#[trigger] ret@[t])@ == Seq::new(
                        self.cache0@[t]@.len(),
                        |j: int|
                            mul_val(
                                div_val(
                                    self.cache0@[t]@[j] as int,
                                    sqrt_val(m0[t][j] as int) + FX_EPS as int,
                                ),
                                self.lr as int,
                            ) as i64,
                    ),
                forall|t: int| 0 <= t < i ==> bounded_seq((#[trigger] ret@[t])@),
            decreases n - i,
        {
            proof {
                assert(bounded_seq(self.cache0.deep_view()[i as int]));
                assert(bounded_seq(self.cache1.deep_view()[i as int]));
            }
            let w: usize = self.cache0[i].len();
            let mut mrow: Vec<i64> = Vec::new();
            let mut srow: Vec<i64> = Vec::new();
            let mut j: usize = 0;
            while j < w
                invariant
                    0 <= j <= w,
                    0 <= i < n,
                    n == self.cache0@.len(),
                    self.cache1@.len() == n,
                    fx_bounded(self.lr),
                    0 <= self.beta0 <= FX_MAX,
                    0 <= self.beta1 <= FX_MAX,
                    nonneg_mat(self.cache1.deep_view()),
                    forall|t: int|
                        0 <= t < n ==> #[trigger] self.cache1.deep_view()[t]
                            == self.cache1@[t]@,
                    w == self.cache0@[i as int]@.len(),
                    self.cache1@[i as int]@.len() == w,
                    bounded_seq(self.cache0@[i as int]@),
                    bounded_seq(self.cache1@[i as int]@),
                    p0[i as int] == self.cache1@[i as int]@,
                    a0[i as int] == self.cache0@[i as int]@,
                    m0[i as int] == Seq::new(
                        p0[i as int].len(),
                        |t: int|
                            add_val(
                                mul_val(p0[i as int][t] as int, self.beta0 as int),
                                mul_val(
                                    mul_val(a0[i as int][t] as int, a0[i as int][t] as int),
                                    self.beta1 as int,
                                ),
                            ) as i64,
                    ),
                    mrow@.len() == j,
                    srow@.len() == j,
                    forall|t: int| 0 <= t < j ==> (#[trigger] mrow@[t]) == m0[i as int][t],
                    forall|t: int| 0 <= t < j ==> (#[trigger] mrow@[t]) >= 0,
                    bounded_seq(mrow@),
                    forall|t: int|
                        0 <= t < j ==> (#[trigger] srow@[t]) as int == mul_val(
                            div_val(
                                self.cache0@[i as int]@[t] as int,
                                sqrt_val(m0[i as int][t] as int) + FX_EPS as int,
                            ),
                            self.lr as int,
                        ),
                    bounded_seq(srow@),
                decreases w - j,
            {
                let c0: i64 = self.cache0[i][j];
                let c1: i64 = self.cache1[i][j];
                proof {
                    assert(self.cache1.deep_view()[i as int] == self.cache1@[i as int]@);
                    assert(self.cache1.deep_view()[i as int][j as int] >= 0);
                    lemma_mul_val_nonneg(c1 as int, self.beta0 as int);
                    lemma_mul_val_sq_nonneg(c0 as int);
                    lemma_mul_val_nonneg(
                        mul_val(c0 as int, c0 as int),
                        self.beta1 as int,
                    );
                }
                let t1: i64 = fx_mul(c1, self.beta0);
                let t2: i64 = fx_mul(fx_mul(c0, c0), self.beta1);
                let c1n: i64 = fx_add(t1, t2);
                let sq: i64 = fx_sqrt(c1n);
                let den: i64 = sq + FX_EPS;
                let v: i64 = fx_mul(fx_div(c0, den), self.lr);
                mrow.push(c1n);
                srow.push(v);
                j = j + 1;
            }
            proof {
                assert(mrow@ =~= m0[i as int]);
                assert(srow@ =~= Seq::new(
                    self.cache0@[i as int]@.len(),
                    |t: int|
                        mul_val(
                            div_val(
                                self.cache0@[i as int]@[t] as int,
                                sqrt_val(m0[i as int][t] as int) + FX_EPS as int,
                            ),
                            self.lr as int,
                        ) as i64,
                ));
            }
            nm.push(mrow);
            ret.push(srow);
            i = i + 1;
        }
        proof {
            lemma_mat_deep_view(&nm);
            lemma_mat_deep_view(&ret);
            assert(nm.deep_view() =~~= m0);
            assert(ret.deep_view() =~~= rms_step(a0, m0, self.lr));
        }
        self.cache1 = nm;
        let z: Vec<Vec<i64>> = zero_like(&self.cache0);
        self.cache0 = z;
        proof {
            assert(mat_lens(zero_mat(old(self).shape())) =~= old(self).shape());
            assert(mat_lens(old(self).persist_after()) =~= old(self).shape());
            assert(mat_shape_ok(ret.deep_view(), old(self).shape()));
            assert(nonneg_mat(self.cache1.deep_view()));
        }
        ret
    }
}

/// Sum-not-average accumulation (RMSProp): absorbing two reversed gradient
/// lists one call after the other leaves exactly the accumulator that one
/// call with their elementwise (saturating) sums would leave, provided no
/// intermediate sum saturates. The engine therefore scales the effective step
/// with the number of accumulated examples; it never averages.
pub proof fn lemma_rmsprop_accumulation_sums(
    acc: Seq<Seq<i64>>,
    e1: Seq<Seq<i64>>,
    e2: Seq<Seq<i64>>,
    esum: Seq<Seq<i64>>,
)
    requires
        e1.len() == acc.len(),
        e2.len() == acc.len(),
        esum.len() == acc.len(),
        forall|i: int|
            0 <= i < acc.len() ==> (#[trigger] e1[i]).len() == acc[acc.len() - 1 - i].len()
                && e2[i].len() == acc[acc.len() - 1 - i].len() && esum[i].len() == acc[acc.len()
                - 1 - i].len(),
        forall|i: int, j: int|
            0 <= i < acc.len() && 0 <= j < e1[i].len() ==> (#[trigger] esum[i][j]) as int
                == add_val(e1[i][j] as int, e2[i][j] as int),
        forall|i: int, j: int|
            0 <= i < acc.len() && 0 <= j < e1[i].len() ==> -(FX_MAX as int) <= (
            #[trigger] e1[i][j]) as int + e2[i][j] as int <= FX_MAX as int,
        forall|i: int, j: int|
            0 <= i < acc.len() && 0 <= j < acc[i].len() ==> -(FX_MAX as int) <= (
            #[trigger] acc[i][j]) as int + e1[acc.len() - 1 - i][j] as int <= FX_MAX as int,
    ensures
        raw_acc_update(raw_acc_update(acc, e1), e2) == raw_acc_update(acc, esum),
{
    let once = raw_acc_update(acc, esum);
    let first = raw_acc_update(acc, e1);
    let twice = raw_acc_update(first, e2);
    assert forall|i: int| 0 <= i < acc.len() implies #[trigger] twice[i] =~= once[i] by {
        assert forall|j: int| 0 <= j < acc[i].len() implies #[trigger] twice[i][j]
            == once[i][j] by {
            let a = acc[i][j] as int;
            let g1 = e1[acc.len() - 1 - i][j] as int;
            let g2 = e2[acc.len() - 1 - i][j] as int;
            assert(first[i][j] as int == a + g1);
            assert(esum[acc.len() - 1 - i][j] as int == g1 + g2);
            assert(twice[i][j] as int == add_val(a + g1, g2));
            assert(once[i][j] as int == add_val(a, g1 + g2));
        }
    }
    assert(twice =~~= once);
}

/// Sum-not-average accumulation (gradient descent and momentum): two
/// accumulation calls leave the accumulator holding the plain sum of both
/// scaled gradients; no division by the number of calls ever happens. One
/// accumulation of pre-summed gradients agrees with this up to the rounding
/// of the scaling, which the tests bound.
pub proof fn lemma_scaled_accumulation_sums(
    acc: Seq<Seq<i64>>,
    e1: Seq<Seq<i64>>,
    e2: Seq<Seq<i64>>,
    lr: i64,
)
    requires
        e1.len() == acc.len(),
        e2.len() == acc.len(),
        forall|i: int|
            0 <= i < acc.len() ==> (#[trigger] e1[i]).len() == acc[acc.len() - 1 - i].len()
                && e2[i].len() == acc[acc.len() - 1 - i].len(),
        forall|i: int, j: int|
            0 <= i < acc.len() && 0 <= j < acc[i].len() ==> -(FX_MAX as int) <= tmul(
                (#[trigger] e1[acc.len() - 1 - i][j]) as int,
                lr as int,
            ) <= FX_MAX as int && -(FX_MAX as int) <= tmul(
                e2[acc.len() - 1 - i][j] as int,
                lr as int,
            ) <= FX_MAX as int,
        forall|i: int, j: int|
            0 <= i < acc.len() && 0 <= j < acc[i].len() ==> -(FX_MAX as int) <= (
            #[trigger] acc[i][j]) as int + tmul(e1[acc.len() - 1 - i][j] as int, lr as int)
                <= FX_MAX as int && -(FX_MAX as int) <= acc[i][j] as int + tmul(
                e1[acc.len() - 1 - i][j] as int,
                lr as int,
            ) + tmul(e2[acc.len() - 1 - i][j] as int, lr as int) <= FX_MAX as int,
    ensures
        forall|i: int, j: int|
            0 <= i < acc.len() && 0 <= j < acc[i].len() ==> (
            #[trigger] scaled_acc_update(scaled_acc_update(acc, e1, lr), e2, lr)[i][j]) as int
                == acc[i][j] as int + tmul(e1[acc.len() - 1 - i][j] as int, lr as int) + tmul(
                e2[acc.len() - 1 - i][j] as int,
                lr as int,
            ),
{
    let first = scaled_acc_update(acc, e1, lr);
    let twice = scaled_acc_update(first, e2, lr);
    assert forall|i: int, j: int|
        0 <= i < acc.len() && 0 <= j < acc[i].len() implies (#[trigger] twice[i][j]) as int
        == acc[i][j] as int + tmul(e1[acc.len() - 1 - i][j] as int, lr as int) + tmul(
        e2[acc.len() - 1 - i][j] as int,
        lr as int,
    ) by {
        let m1 = tmul(e1[acc.len() - 1 - i][j] as int, lr as int);
        let m2 = tmul(e2[acc.len() - 1 - i][j] as int, lr as int);
        assert(first[i][j] as int == acc[i][j] as int + m1);
        assert(twice[i][j] as int == add_val(first[i][j] as int, m2));
    }
}

} // verus!
