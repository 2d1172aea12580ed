use microgpt::autograd::{Graph, Op, ValueRef};
use microgpt::model::{
    add_vectors, attention_logits, embed, head_output, layer_output, layer_qkv, linear, relu_all, rmsnorm, softmax, Model,
};
use microgpt::parameters::{LayerMatrix, ParamKey, Parameters};

/// Evaluates every node of the graph in creation order; inputs take the given values.
fn forward(g: &Graph, inputs: &[(ValueRef, f64)]) -> Vec<f64> {
    let n = g.len();
    let mut data = vec![0.0; n];
    for i in 0..n {
        let v = ValueRef { index: i };
        let ch = g.children(v).clone();
        data[i] = match g.op(v) {
            Op::Input => inputs.iter().find(|(k, _)| k.index == i).map(|(_, x)| *x).unwrap_or(0.0),
            Op::Constant { numer, denom } => numer as f64 / denom as f64,
            Op::Add => data[ch[0]] + data[ch[1]],
            Op::Mul => data[ch[0]] * data[ch[1]],
            Op::Pow { exponent } => data[ch[0]].powf(data[exponent]),
            Op::Log => data[ch[0]].ln(),
            Op::Exp => data[ch[0]].exp(),
            Op::Relu => {
                if data[ch[0]] > 0. {
                    data[ch[0]]
                } else {
                    0.
                }
            }
        };
    }
    data
}

fn inputs(g: &mut Graph, values: &[f64]) -> Vec<(ValueRef, f64)> {
    values.iter().map(|x| (ValueRef::new(g, vec![]), *x)).collect()
}

#[test]
fn test_linear() {
    let mut g = Graph::new();
    let v = inputs(&mut g, &[1.0, 2.0, 3.0]);
    let w0 = inputs(&mut g, &[1.0, 1.0, 2.0]);
    let w1 = inputs(&mut g, &[2.0, 5.0, 4.0]);
    let x: Vec<ValueRef> = v.iter().map(|p| p.0).collect();
    let w = vec![w0.iter().map(|p| p.0).collect(), w1.iter().map(|p| p.0).collect()];
    let lineared = linear(&mut g, &x, &w);
    let all: Vec<(ValueRef, f64)> = v.iter().chain(w0.iter()).chain(w1.iter()).cloned().collect();
    let data = forward(&g, &all);
    let expected = vec![9.0, 24.0];
    assert_eq!(expected, lineared.into_iter().map(|v| data[v.index]).collect::<Vec<f64>>());
}

#[test]
fn test_softmax() {
    let mut g = Graph::new();
    let v = inputs(&mut g, &[1.0, 2.0, 3.0]);
    let logits: Vec<ValueRef> = v.iter().map(|p| p.0).collect();
    let softmaxed = softmax(&mut g, &logits, 2);
    let data = forward(&g, &v);
    for val in softmaxed {
        assert!(data[val.index] <= 1.0);
        assert!(data[val.index] >= 0.0);
    }
}

#[test]
fn softmax_sums_to_one_and_keeps_order() {
    let mut g = Graph::new();
    let v = inputs(&mut g, &[0.5, -1.0, 2.0, 2.0]);
    let logits: Vec<ValueRef> = v.iter().map(|p| p.0).collect();
    let out = softmax(&mut g, &logits, 3);
    let data = forward(&g, &v);
    let probs: Vec<f64> = out.iter().map(|x| data[x.index]).collect();
    let sum: f64 = probs.iter().sum();
    assert!((sum - 1.0).abs() < 1e-12);
    assert!(probs[1] < probs[0] && probs[0] < probs[2]);
    assert_eq!(probs[2], probs[3]);
}

#[test]
fn linear_stops_at_the_shorter_vector() {
    let mut g = Graph::new();
    let v = inputs(&mut g, &[1.0, 2.0]);
    let w0 = inputs(&mut g, &[3.0, 4.0, 5.0]);
    let x: Vec<ValueRef> = v.iter().map(|p| p.0).collect();
    let w = vec![w0.iter().map(|p| p.0).collect()];
    let out = linear(&mut g, &x, &w);
    let all: Vec<(ValueRef, f64)> = v.iter().chain(w0.iter()).cloned().collect();
    let data = forward(&g, &all);
    assert_eq!(data[out[0].index], 11.0);
    assert_eq!(linear(&mut g, &x, &vec![]).len(), 0);
}

#[test]
fn rmsnorm_scales_by_root_mean_square() {
    let mut g = Graph::new();
    let v = inputs(&mut g, &[3.0, 4.0]);
    let x: Vec<ValueRef> = v.iter().map(|p| p.0).collect();
    let out = rmsnorm(&mut g, &x);
    let data = forward(&g, &v);
    let scale = (12.5f64 + 1e-5).powf(-0.5);
    assert!((data[out[0].index] - 3.0 * scale).abs() < 1e-12);
    assert!((data[out[1].index] - 4.0 * scale).abs() < 1e-12);
}

#[test]
fn attention_head_of_one_position() {
    let mut g = Graph::new();
    let q = inputs(&mut g, &[9.0, 1.0, 2.0]);
    let k = inputs(&mut g, &[9.0, 3.0, 4.0]);
    let v = inputs(&mut g, &[9.0, 5.0, 6.0]);
    let qv: Vec<ValueRef> = q.iter().map(|p| p.0).collect();
    let keys = vec![k.iter().map(|p| p.0).collect::<Vec<_>>()];
    let values = vec![v.iter().map(|p| p.0).collect::<Vec<_>>()];
    let logits = attention_logits(&mut g, &qv, &keys, 1, 2);
    assert_eq!(logits.len(), 1);
    let weights = softmax(&mut g, &logits, 0);
    let out = head_output(&mut g, &weights, &values, 1, 2);
    let all: Vec<(ValueRef, f64)> = q.iter().chain(k.iter()).chain(v.iter()).cloned().collect();
    let data = forward(&g, &all);
    assert!((data[logits[0].index] - 11.0 / 2f64.sqrt()).abs() < 1e-12);
    assert_eq!(data[weights[0].index], 1.0);
    assert_eq!(data[out[0].index], 5.0);
    assert_eq!(data[out[1].index], 6.0);
}

#[test]
fn residual_and_relu_vectors() {
    let mut g = Graph::new();
    let a = inputs(&mut g, &[1.0, -2.0, 3.0]);
    let b = inputs(&mut g, &[1.0, 1.0]);
    let av: Vec<ValueRef> = a.iter().map(|p| p.0).collect();
    let bv: Vec<ValueRef> = b.iter().map(|p| p.0).collect();
    let sum = add_vectors(&mut g, &av, &bv);
    assert_eq!(sum.len(), 2);
    let r = relu_all(&mut g, &sum);
    let all: Vec<(ValueRef, f64)> = a.iter().chain(b.iter()).cloned().collect();
    let data = forward(&g, &all);
    assert_eq!(data[sum[1].index], -1.0);
    assert_eq!(data[r[0].index], 2.0);
    assert_eq!(data[r[1].index], 0.0);
}

#[test]
fn model_new_and_caches() {
    let mut g = Graph::new();
    let params = Parameters::new(&mut g, 3, 4, 2, 1, 2);
    let mut model = Model::new(1, 2, 4, params, vec![vec![]], vec![vec![]]);
    assert_eq!(model.head_dim, 2);
    let k = ValueRef::new(&mut g, vec![]);
    model.push_kv(0, vec![k], vec![k, k]);
    assert_eq!(model.keys, vec![vec![vec![k]]]);
    assert_eq!(model.values, vec![vec![vec![k, k]]]);
    model.reset_cache();
    assert_eq!(model.keys.len(), 1);
    assert!(model.keys[0].is_empty());
    assert!(model.values[0].is_empty());
}

fn rms(x: &[f64]) -> Vec<f64> {
    let ms: f64 = x.iter().map(|v| v * v).sum::<f64>() / x.len() as f64;
    let scale = (ms + 1e-5).powf(-0.5);
    x.iter().map(|v| v * scale).collect()
}

fn close(a: f64, b: f64) -> bool {
    (a - b).abs() < 1e-9
}

#[test]
fn embed_adds_token_and_position_rows_then_normalizes() {
    let mut g = Graph::new();
    let t0 = inputs(&mut g, &[1.0, 0.0]);
    let t1 = inputs(&mut g, &[0.5, 2.0]);
    let p0 = inputs(&mut g, &[1.0, 1.0]);
    let wte = vec![t0.iter().map(|p| p.0).collect(), t1.iter().map(|p| p.0).collect()];
    let wpe = vec![p0.iter().map(|p| p.0).collect()];
    let x = embed(&mut g, &wte, &wpe, 1, 0);
    let all: Vec<(ValueRef, f64)> = t0.iter().chain(t1.iter()).chain(p0.iter()).cloned().collect();
    let data = forward(&g, &all);
    let expected = rms(&[1.5, 3.0]);
    assert!(close(data[x[0].index], expected[0]));
    assert!(close(data[x[1].index], expected[1]));
}

#[test]
fn layer_qkv_and_output_follow_the_block() {
    let mut g = Graph::new();
    let xin = inputs(&mut g, &[1.0, 2.0]);
    let ident = |g: &mut Graph| -> (Vec<Vec<ValueRef>>, Vec<(ValueRef, f64)>) {
        let r0 = inputs(g, &[1.0, 0.0]);
        let r1 = inputs(g, &[0.0, 1.0]);
        let m = vec![r0.iter().map(|p| p.0).collect(), r1.iter().map(|p| p.0).collect()];
        (m, r0.into_iter().chain(r1).collect())
    };
    let (wq, a) = ident(&mut g);
    let (wk, b) = ident(&mut g);
    let (wv, c) = ident(&mut g);
    let (wo, d) = ident(&mut g);
    let (fc1, e) = ident(&mut g);
    let (fc2, f) = ident(&mut g);
    let x: Vec<ValueRef> = xin.iter().map(|p| p.0).collect();
    let (q, k, v) = layer_qkv(&mut g, &x, &wq, &wk, &wv);
    let out = layer_output(&mut g, &v, &x, &wo, &fc1, &fc2);
    let all: Vec<(ValueRef, f64)> =
        xin.iter().chain(a.iter()).chain(b.iter()).chain(c.iter()).chain(d.iter()).chain(e.iter()).chain(f.iter()).cloned().collect();
    let data = forward(&g, &all);
    let n = rms(&[1.0, 2.0]);
    for j in 0..2 {
        assert!(close(data[q[j].index], n[j]));
        assert!(close(data[k[j].index], n[j]));
        assert!(close(data[v[j].index], n[j]));
    }
    // after attention: v + x; then relu(rmsnorm(.)) added to it
    let after = [n[0] + 1.0, n[1] + 2.0];
    let mlp = rms(&after);
    assert!(close(data[out[0].index], mlp[0].max(0.0) + after[0]));
    assert!(close(data[out[1].index], mlp[1].max(0.0) + after[1]));
}

use microgpt::gpt::{GptAction, GptPass};

/// Runs a pass, picking the largest logit of each head from the evaluated values.
fn run_pass(g: &mut Graph, model: &mut Model, inputs: &[(ValueRef, f64)], token: usize, pos: usize) -> Option<Vec<f64>> {
    let (mut pass, mut action) = GptPass::start(g, model, token, pos);
    loop {
        action = match action {
            GptAction::Continue => pass.step(g, model),
            GptAction::Argmax => {
                let data = forward(g, inputs);
                let m = pass
                    .logits
                    .iter()
                    .enumerate()
                    .max_by(|a, b| f64::total_cmp(&data[a.1.index], &data[b.1.index]))
                    .unwrap()
                    .0;
                pass.resume(g, model, m)
            }
            GptAction::Done(out) => {
                let data = forward(g, inputs);
                return Some(out.iter().map(|v| data[v.index]).collect());
            }
            GptAction::Fail => return None,
        };
    }
}

fn matvec(w: &[Vec<f64>], x: &[f64]) -> Vec<f64> {
    w.iter().map(|row| row.iter().zip(x).map(|(a, b)| a * b).sum()).collect()
}

#[test]
fn gpt_pass_matches_a_direct_forward_computation() {
    let mut g = Graph::new();
    let (vocab, n_embd, n_head, n_layer, block) = (3, 2, 1, 1, 2);
    let params = Parameters::new(&mut g, vocab, n_embd, n_head, n_layer, block);
    let ps = params.params();
    let inputs: Vec<(ValueRef, f64)> =
        ps.iter().enumerate().map(|(k, p)| (*p, ((k * 7 % 11) as f64 - 5.0) / 10.0)).collect();
    let value = |v: ValueRef| inputs[v.index].1;
    let mat = |key: ParamKey| -> Vec<Vec<f64>> {
        params.state_dict.get(key).unwrap().iter().map(|r| r.iter().map(|v| value(*v)).collect()).collect()
    };
    let (wte, wpe, lm) = (mat(ParamKey::Wte), mat(ParamKey::Wpe), mat(ParamKey::LmHead));
    let l = |m| mat(ParamKey::Layer(0, m));
    let (wq, wk, wv, wo, fc1, fc2) =
        (l(LayerMatrix::AttnWq), l(LayerMatrix::AttnWk), l(LayerMatrix::AttnWv), l(LayerMatrix::AttnWo), l(LayerMatrix::MlpFc1), l(LayerMatrix::MlpFc2));

    // direct computation for token 1 at position 0 (one cached position, one head)
    let x0: Vec<f64> = wte[1].iter().zip(&wpe[0]).map(|(a, b)| a + b).collect();
    let x = rms(&x0);
    let xn = rms(&x);
    let v = matvec(&wv, &xn);
    let _ = (matvec(&wq, &xn), matvec(&wk, &xn));
    // a single key: the softmax weight is 1, the head output is the value
    let proj: Vec<f64> = matvec(&wo, &v).iter().zip(&x).map(|(a, b)| a + b).collect();
    let hidden: Vec<f64> = matvec(&fc1, &rms(&proj)).iter().map(|h| h.max(0.0)).collect();
    let out: Vec<f64> = matvec(&fc2, &hidden).iter().zip(&proj).map(|(a, b)| a + b).collect();
    let expected = matvec(&lm, &out);

    let mut model = Model::new(n_layer, n_head, n_embd, params, vec![vec![]], vec![vec![]]);
    let logits = run_pass(&mut g, &mut model, &inputs, 1, 0).unwrap();
    assert_eq!(logits.len(), vocab);
    for (a, b) in logits.iter().zip(&expected) {
        assert!(close(*a, *b));
    }
    assert_eq!(model.keys[0].len(), 1);
    assert_eq!(model.values[0].len(), 1);
}

#[test]
fn gpt_pass_fails_where_an_unwrap_would() {
    let mut g = Graph::new();
    let params = Parameters::new(&mut g, 3, 2, 1, 1, 2);
    let mut model = Model::new(1, 1, 2, params, vec![vec![]], vec![vec![]]);
    // token out of range
    assert!(run_pass(&mut g, &mut model, &[], 3, 0).is_none());
    // position out of range
    assert!(run_pass(&mut g, &mut model, &[], 0, 2).is_none());
    // a second layer without parameters
    let params = Parameters::new(&mut g, 3, 2, 1, 1, 2);
    let mut model = Model::new(2, 1, 2, params, vec![vec![], vec![]], vec![vec![], vec![]]);
    assert!(run_pass(&mut g, &mut model, &[], 0, 0).is_none());
    // a cache reset leaves only the first layer's cache
    let params = Parameters::new(&mut g, 3, 2, 1, 1, 2);
    let mut model = Model::new(1, 1, 2, params, vec![], vec![]);
    assert!(run_pass(&mut g, &mut model, &[], 0, 0).is_none());
    model.reset_cache();
    assert!(run_pass(&mut g, &mut model, &[], 0, 0).is_some());
}

#[test]
fn laid_out_parameters_hold_every_matrix() {
    let mut g = Graph::new();
    let (vocab, n_embd, n_layer, block) = (3, 2, 2, 4);
    let params = Parameters::new(&mut g, vocab, n_embd, 1, n_layer, block);
    let shape_of = |key: ParamKey| {
        let m = params.state_dict.get(key).unwrap();
        assert!(m.iter().all(|r| r.len() == m[0].len()));
        (m.len(), m[0].len())
    };
    assert_eq!(shape_of(ParamKey::Wte), (vocab, n_embd));
    assert_eq!(shape_of(ParamKey::Wpe), (block, n_embd));
    assert_eq!(shape_of(ParamKey::LmHead), (vocab, n_embd));
    for li in 0..n_layer {
        for m in [LayerMatrix::AttnWq, LayerMatrix::AttnWk, LayerMatrix::AttnWv, LayerMatrix::AttnWo] {
            assert_eq!(shape_of(ParamKey::Layer(li, m)), (n_embd, n_embd));
        }
        assert_eq!(shape_of(ParamKey::Layer(li, LayerMatrix::MlpFc1)), (4 * n_embd, n_embd));
        assert_eq!(shape_of(ParamKey::Layer(li, LayerMatrix::MlpFc2)), (n_embd, 4 * n_embd));
    }
    assert!(params.state_dict.get(ParamKey::Layer(n_layer, LayerMatrix::AttnWq)).is_none());

    // one layer: every token at every position in range runs through
    let params = Parameters::new(&mut g, vocab, n_embd, 1, 1, block);
    let mut model = Model::new(1, 1, n_embd, params, vec![vec![]], vec![vec![]]);
    for token in 0..vocab {
        for pos in 0..block {
            model.reset_cache();
            assert_eq!(run_pass(&mut g, &mut model, &[], token, pos).unwrap().len(), vocab);
        }
    }
}

#[test]
fn ready_model_runs_every_pass_without_failing() {
    let mut g = Graph::new();
    let (vocab, n_embd, n_head, n_layer, block) = (4, 4, 2, 2, 3);
    let params = Parameters::new(&mut g, vocab, n_embd, n_head, n_layer, block);
    let ps = params.params();
    let inputs: Vec<(ValueRef, f64)> =
        ps.iter().enumerate().map(|(k, p)| (*p, ((k * 5 % 13) as f64 - 6.0) / 10.0)).collect();
    let mut model = Model::new(n_layer, n_head, n_embd, params, vec![vec![], vec![]], vec![vec![], vec![]]);
    // positions 0, 1, 2 of one sequence: the caches grow by one key and value per layer
    for pos in 0..block {
        let logits = run_pass(&mut g, &mut model, &inputs, pos % vocab, pos).unwrap();
        assert_eq!(logits.len(), vocab);
        assert!(logits.iter().all(|l| l.is_finite()));
        for li in 0..n_layer {
            assert_eq!(model.keys[li].len(), pos + 1);
            assert_eq!(model.values[li].len(), pos + 1);
            assert!(model.keys[li].iter().all(|k| k.len() == n_embd));
        }
    }
}
