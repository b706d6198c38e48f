use radonn::SCALE;
use radonn::fixed::fx_mul;
use radonn::func::{Function, ReLU, Sigmoid};
use radonn::net::{Activation, Bias, Dense, FuncKind, Layer, NetError, NetLayer, SeqNet, Softmax};
use radonn::optim::{back_propagate, feed_forward, loss, step, Optimizer, RMSProp, SGD, SGDwMomentum};

fn fx(x: f64) -> i64 {
    (x * SCALE as f64).round() as i64
}

fn fl(v: i64) -> f64 {
    v as f64 / SCALE as f64
}

fn fxv(xs: &[f64]) -> Vec<i64> {
    xs.iter().map(|&x| fx(x)).collect()
}

fn dense(weights: &[f64], in_num: usize, out_num: usize) -> NetLayer {
    NetLayer::Dense(Dense { connections: fxv(weights), in_num, out_num })
}

fn bias(values: &[f64]) -> NetLayer {
    NetLayer::Bias(Bias { connections: fxv(values) })
}

fn relu_layer() -> NetLayer {
    NetLayer::Activation(Activation { activation: FuncKind::Relu(ReLU {}) })
}

fn sigmoid_layer() -> NetLayer {
    NetLayer::Activation(Activation { activation: FuncKind::Sig(Sigmoid {}) })
}

#[test]
fn dense_feed_forward_matches_input_major_formula() {
    let layer = Dense { connections: fxv(&[0.5, 1.0, -0.25, 0.25, -1.0, 2.0]), in_num: 2, out_num: 3 };
    let input = fxv(&[1.0, 2.0]);
    let out = layer.feed_forward(&input);
    // out[o] = sum_i x[i] * W[i * out_num + o], exactly representable here
    assert_eq!(out, fxv(&[1.0, -1.0, 3.75]));
}

#[test]
fn dense_back_propagate_uses_transposed_weights() {
    let layer = Dense { connections: fxv(&[0.5, 1.0, -0.25, 0.25, -1.0, 2.0]), in_num: 2, out_num: 3 };
    let err = fxv(&[1.0, 2.0, 4.0]);
    let up = layer.back_propagate(&err, &Vec::new());
    // up[i] = sum_o W[i * out_num + o] * err[o]
    assert_eq!(up, fxv(&[0.5 + 2.0 - 1.0, 0.25 - 2.0 + 8.0]));
}

#[test]
fn dense_param_grad_is_input_major() {
    let layer = Dense { connections: fxv(&[0.0, 0.0, 0.0, 0.0, 0.0, 0.0]), in_num: 2, out_num: 3 };
    let err = fxv(&[1.0, 2.0, 4.0]);
    let input = fxv(&[0.5, -1.0]);
    let grad = layer.calc_err(&err, &input);
    // grad[i * out_num + o] = err[o] * x[i], matching the weight layout
    assert_eq!(grad, fxv(&[0.5, 1.0, 2.0, -1.0, -2.0, -4.0]));
}

#[test]
fn dense_step_subtracts_in_place() {
    let mut layer = Dense { connections: fxv(&[1.0, 2.0]), in_num: 2, out_num: 1 };
    layer.step(&fxv(&[0.25, -0.5]));
    assert_eq!(layer.connections, fxv(&[0.75, 2.5]));
}

#[test]
fn bias_adds_elementwise_and_backward_is_identity() {
    let layer = Bias { connections: fxv(&[0.5, -0.5]) };
    let input = fxv(&[1.0, 2.0]);
    assert_eq!(layer.feed_forward(&input), fxv(&[1.5, 1.5]));
    let err = fxv(&[0.25, -2.0]);
    assert_eq!(layer.back_propagate(&err, &Vec::new()), err);
    assert_eq!(layer.calc_err(&err, &input), err);
}

#[test]
fn relu_activation_and_derivative() {
    let f = ReLU {};
    let input = fxv(&[-1.0, 0.0, 2.0]);
    assert_eq!(f.activate(&input), fxv(&[0.0, 0.0, 2.0]));
    let (out, der) = f.d_activate(&input);
    assert_eq!(out, fxv(&[0.0, 0.0, 2.0]));
    assert_eq!(der, fxv(&[0.0, 0.0, 1.0]));
}

#[test]
fn sigmoid_stays_in_open_unit_interval() {
    let f = Sigmoid {};
    let input = fxv(&[-200.0, -5.0, 0.0, 5.0, 200.0]);
    let out = f.activate(&input);
    for &s in out.iter() {
        assert!(0 < s && s < SCALE);
    }
    // sigmoid(0) is exactly one half
    assert_eq!(out[2], SCALE / 2);
    // close to the real sigmoid at +-5
    assert!((fl(out[1]) - 0.0066929).abs() < 1e-3);
    assert!((fl(out[3]) - 0.9933071).abs() < 1e-3);
}

#[test]
fn sigmoid_derivative_is_s_times_one_minus_s() {
    let f = Sigmoid {};
    let input = fxv(&[-3.0, -0.5, 0.0, 0.5, 3.0]);
    let (out, der) = f.d_activate(&input);
    for i in 0..input.len() {
        let s: i64 = out[i];
        assert_eq!(der[i], fx_mul(s, SCALE - s));
    }
}

#[test]
fn softmax_is_a_probability_vector() {
    let layer = Softmax {};
    let input = fxv(&[1.0, 2.0, 3.0]);
    let out = layer.feed_forward(&input);
    let mut sum: i64 = 0;
    for &v in out.iter() {
        assert!(0 <= v && v <= SCALE);
        sum += v;
    }
    // sums to one, within one unit per element
    assert!(SCALE - 3 <= sum && sum <= SCALE);
    // close to the real softmax
    assert!((fl(out[0]) - 0.0900306).abs() < 1e-3);
    assert!((fl(out[1]) - 0.2447285).abs() < 1e-3);
    assert!((fl(out[2]) - 0.6652410).abs() < 1e-3);
}

#[test]
fn softmax_invariant_under_constant_shift() {
    let layer = Softmax {};
    let a = layer.feed_forward(&fxv(&[0.25, -1.5, 2.0, 0.0]));
    let b = layer.feed_forward(&fxv(&[0.25 + 0.7, -1.5 + 0.7, 2.0 + 0.7, 0.0 + 0.7]));
    assert_eq!(a, b);
}

#[test]
fn softmax_backward_is_identity() {
    let layer = Softmax {};
    let err = fxv(&[0.5, -0.25]);
    assert_eq!(layer.back_propagate(&err, &Vec::new()), err);
    assert_eq!(layer.calc_err(&err, &fxv(&[1.0, 2.0])), Vec::<i64>::new());
    assert_eq!(layer.param_num(), 0);
}

#[test]
fn seq_net_new_validates_widths() {
    let ok = SeqNet::new(vec![dense(&[1.0, 0.5], 2, 1), bias(&[0.25]), relu_layer()]);
    assert!(ok.is_ok());
    let bad = SeqNet::new(vec![dense(&[1.0, 0.5], 2, 1), bias(&[0.25, 0.5, 0.75])]);
    assert_eq!(bad.err(), Some(NetError::ShapeMismatch));
    let empty = SeqNet::new(Vec::new());
    assert_eq!(empty.err(), Some(NetError::ShapeMismatch));
    let torn = SeqNet::new(vec![NetLayer::Dense(Dense {
        connections: fxv(&[1.0]),
        in_num: 2,
        out_num: 1,
    })]);
    assert_eq!(torn.err(), Some(NetError::ShapeMismatch));
}

#[test]
fn feed_forward_chains_layers() {
    let net = SeqNet {
        layers: vec![
            dense(&[1.0, 0.5], 2, 1),
            bias(&[0.25]),
            relu_layer(),
        ],
    };
    let out = feed_forward(&fxv(&[1.0, 2.0]), &net).unwrap();
    assert_eq!(out, fxv(&[2.25]));
    let neg = feed_forward(&fxv(&[-1.0, -2.0]), &net).unwrap();
    assert_eq!(neg, fxv(&[0.0]));
}

#[test]
fn feed_forward_rejects_wrong_width() {
    let net = SeqNet { layers: vec![dense(&[1.0, 0.5], 2, 1)] };
    assert_eq!(feed_forward(&fxv(&[1.0]), &net), Err(NetError::ShapeMismatch));
}

#[test]
fn back_propagate_rejects_wrong_expected_width() {
    let mut net = SeqNet { layers: vec![dense(&[1.0, 0.5], 2, 1)] };
    let mut opt = SGD::new(&net, fx(1.0));
    let r = back_propagate(&fxv(&[1.0, 2.0]), &fxv(&[0.0, 0.0]), &mut net, &mut opt);
    assert_eq!(r, Err(NetError::ShapeMismatch));
}

#[test]
fn loss_sums_squared_errors() {
    let net = SeqNet { layers: vec![bias(&[0.0, 0.0])] };
    let ins = vec![fxv(&[1.0, 2.0]), fxv(&[0.0, 1.0])];
    let outs = vec![fxv(&[0.0, 0.0]), fxv(&[1.0, 1.0])];
    let l: i64 = loss(&ins, &outs, &net).unwrap();
    // (1 + 4) + (1 + 0) = 6
    assert_eq!(l, fx(6.0));
}

#[test]
fn loss_rejects_mismatched_expected_width() {
    let net = SeqNet { layers: vec![bias(&[0.0, 0.0])] };
    let ins = vec![fxv(&[1.0, 2.0])];
    let outs = vec![fxv(&[0.0])];
    assert_eq!(loss(&ins, &outs, &net), Err(NetError::ShapeMismatch));
}

#[test]
fn sgd_training_pass_accumulates_and_steps() {
    // One weight (2.0) and one bias (0.5): input 1.0 gives output 2.5.
    let mut net = SeqNet { layers: vec![dense(&[2.0], 1, 1), bias(&[0.5])] };
    let mut opt = SGD::new(&net, fx(1.0));
    back_propagate(&fxv(&[1.0]), &fxv(&[0.0]), &mut net, &mut opt).unwrap();
    // error at output: 2.5; bias grad 2.5; dense grad 2.5 * input 1.0 = 2.5
    step(&mut net, &mut opt);
    match (&net.layers[0], &net.layers[1]) {
        (NetLayer::Dense(d), NetLayer::Bias(b)) => {
            assert_eq!(d.connections, fxv(&[2.0 - 2.5]));
            assert_eq!(b.connections, fxv(&[0.5 - 2.5]));
        }
        _ => panic!("unexpected layer kinds"),
    }
}

#[test]
fn accumulation_sums_rather_than_averages() {
    let net = SeqNet { layers: vec![bias(&[0.0, 0.0])] };
    let g1 = vec![fxv(&[0.5, -0.25])];
    let g2 = vec![fxv(&[0.25, 0.125])];
    let gsum = vec![fxv(&[0.75, -0.125])];

    // RMSProp accumulates raw gradients: two calls equal one summed call.
    let mut a = RMSProp::new(&net, fx(1e-3), fx(0.999));
    a.reversed_update(&g1);
    a.reversed_update(&g2);
    let mut b = RMSProp::new(&net, fx(1e-3), fx(0.999));
    b.reversed_update(&gsum);
    assert_eq!(a.get_step(), b.get_step());

    // SGD pre-scales by the learning rate; the two orders agree within one
    // unit of rounding per element.
    let mut c = SGD::new(&net, fx(0.1));
    c.reversed_update(&g1);
    c.reversed_update(&g2);
    let mut d = SGD::new(&net, fx(0.1));
    d.reversed_update(&gsum);
    let sc = c.get_step();
    let sd = d.get_step();
    for j in 0..2 {
        assert!((sc[0][j] - sd[0][j]).abs() <= 2);
    }
}

#[test]
fn momentum_persists_while_accumulator_resets() {
    let net = SeqNet { layers: vec![bias(&[0.0])] };
    let mut opt = SGDwMomentum::new(&net, fx(1.0), fx(0.5));
    opt.reversed_update(&vec![fxv(&[1.0])]);
    let s1 = opt.get_step();
    // momentum = 0 * 0.5 + (1.0 * lr) * 0.5
    assert_eq!(s1, vec![fxv(&[0.5])]);
    // accumulator was reset: the next step only decays the momentum
    let s2 = opt.get_step();
    assert_eq!(s2, vec![fxv(&[0.25])]);
}

#[test]
fn rmsprop_second_moment_persists_and_accumulator_resets() {
    let net = SeqNet { layers: vec![bias(&[0.0])] };
    let mut opt = RMSProp::new(&net, fx(1.0), fx(0.5));
    opt.reversed_update(&vec![fxv(&[1.0])]);
    let s1 = opt.get_step();
    // second moment = 0 * 0.5 + 1 * 0.5 = 0.5; step = 1 / (sqrt(0.5) + eps)
    assert!((fl(s1[0][0]) - 1.0 / 0.5f64.sqrt()).abs() < 1e-3);
    // accumulator reset: with no new gradient the next step is zero
    let s2 = opt.get_step();
    assert_eq!(s2, vec![vec![0i64]]);
}

#[test]
fn finite_difference_matches_param_grad() {
    let weights = [0.3, -0.2, 0.5, 0.1];
    let input = [0.7, -0.4];
    let target = [0.2, -0.1];
    let layer = Dense { connections: fxv(&weights), in_num: 2, out_num: 2 };
    let x = fxv(&input);
    let out = layer.feed_forward(&x);
    let err: Vec<i64> = (0..2).map(|j| out[j] - fx(target[j])).collect();
    let grad = layer.calc_err(&err, &x);

    let delta = 0.001;
    for k in 0..4 {
        let mut wp = weights;
        wp[k] += delta;
        let mut wm = weights;
        wm[k] -= delta;
        let lp = sse(&wp, &input, &target);
        let lm = sse(&wm, &input, &target);
        let fd = (lp - lm) / (2.0 * delta);
        // the engine's gradient is half the SSE gradient
        assert!((fd - 2.0 * fl(grad[k])).abs() < 1e-2);
    }
}

fn sse(weights: &[f64; 4], input: &[f64; 2], target: &[f64; 2]) -> f64 {
    let layer = Dense { connections: fxv(weights), in_num: 2, out_num: 2 };
    let out = layer.feed_forward(&fxv(input));
    (0..2).map(|j| (fl(out[j]) - target[j]).powi(2)).sum()
}

#[test]
fn xor_trains_with_rmsprop() {
    let mut net = SeqNet {
        layers: vec![
            dense(&[0.3, -0.25, 0.2, 0.15, -0.3, -0.2, 0.25, 0.3, -0.15, 0.1], 2, 5),
            bias(&[0.1, 0.05, 0.0, 0.15, 0.2]),
            relu_layer(),
            dense(&[0.3, -0.2, 0.25, -0.3, 0.2], 5, 1),
            bias(&[0.05]),
            sigmoid_layer(),
        ],
    };
    let mut opt = RMSProp::new(&net, fx(1e-3), fx(0.999));
    let inputs = [
        fxv(&[0.0, 0.0]),
        fxv(&[0.0, 1.0]),
        fxv(&[1.0, 0.0]),
        fxv(&[1.0, 1.0]),
    ];
    let targets = [fxv(&[0.0]), fxv(&[1.0]), fxv(&[1.0]), fxv(&[0.0])];
    for i in 0..100000 {
        let idx: usize = i % 4;
        back_propagate(&inputs[idx], &targets[idx], &mut net, &mut opt).unwrap();
        step(&mut net, &mut opt);
    }
    for idx in 0..4 {
        let out = feed_forward(&inputs[idx], &net).unwrap();
        let got = fl(out[0]);
        let want = fl(targets[idx][0]);
        assert!(
            (got - want).abs() < 0.1,
            "prediction {} for case {} is not within 0.1 of {}",
            got,
            idx,
            want
        );
    }
}
