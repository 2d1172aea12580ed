use microgpt::autograd::{Graph, Op, ValueRef};

/// Evaluates every node of the graph in creation order; inputs take the given values.
fn forward(g: &Graph, inputs: &[(ValueRef, f64)]) -> Vec<f64> {
    let n = g.len();
    let mut data = vec![0.0; n];
    for i in 0..n {
        let v = ValueRef { index: i };
        let ch = g.children(v).clone();
        data[i] = match g.op(v) {
            Op::Input => inputs.iter().find(|(k, _)| k.index == i).map(|(_, x)| *x).unwrap_or(0.0),
            Op::Constant { numer, denom } => numer as f64 / denom as f64,
            Op::Add => data[ch[0]] + data[ch[1]],
            Op::Mul => data[ch[0]] * data[ch[1]],
            Op::Pow { exponent } => data[ch[0]].powf(data[exponent]),
            Op::Log => data[ch[0]].ln(),
            Op::Exp => data[ch[0]].exp(),
            Op::Relu => {
                if data[ch[0]] > 0. {
                    data[ch[0]]
                } else {
                    0.
                }
            }
        };
    }
    data
}

/// The local gradients of node `i` with respect to its children.
fn local_grads(g: &Graph, data: &[f64], i: usize) -> Vec<f64> {
    let v = ValueRef { index: i };
    let ch = g.children(v).clone();
    match g.op(v) {
        Op::Input | Op::Constant { .. } => vec![],
        Op::Add => vec![1., 1.],
        Op::Mul => vec![data[ch[1]], data[ch[0]]],
        Op::Pow { exponent } => vec![data[exponent] * data[ch[0]].powf(data[exponent] - 1.)],
        Op::Log => vec![1.0 / data[ch[0]]],
        Op::Exp => vec![data[ch[0]].exp()],
        Op::Relu => vec![if data[ch[0]] > 0. { 1.0 } else { 0. }],
    }
}

/// Backward propagation from `root` along the order the library gives.
fn grads(g: &Graph, data: &[f64], root: ValueRef) -> Vec<f64> {
    let mut grad = vec![0.0; g.len()];
    grad[root.index] = 1.;
    for v in root.backward(g) {
        let ch = g.children(v).clone();
        let lg = local_grads(g, data, v.index);
        for (c, l) in ch.iter().zip(lg.iter()) {
            grad[*c] += l * grad[v.index];
        }
    }
    grad
}

#[test]
fn simple_computation() {
    let mut g = Graph::new();
    let a = ValueRef::new(&mut g, vec![]);
    let b = ValueRef::new(&mut g, vec![]);
    let c = a.mul(b, &mut g);
    let l = c.add(a, &mut g);
    let data = forward(&g, &[(a, 2.), (b, 3.)]);
    let grad = grads(&g, &data, l);
    assert_eq!(grad[a.index], 4.0);
    assert_eq!(grad[b.index], 2.0)
}

#[test]
fn backward_order_visits_each_reachable_node_once_root_first() {
    let mut g = Graph::new();
    let a = ValueRef::new(&mut g, vec![]);
    let unused = ValueRef::new(&mut g, vec![]);
    let sq = a.mul(a, &mut g);
    let e = sq.exp(&mut g);
    let l = e.add(sq, &mut g);
    let order: Vec<usize> = l.backward(&g).iter().map(|v| v.index).collect();
    assert_eq!(order, vec![l.index, e.index, sq.index, a.index]);
    assert!(!order.contains(&unused.index));
    // every node comes before its children
    for (p, v) in order.iter().enumerate() {
        for c in g.children(ValueRef { index: *v }) {
            let q = order.iter().position(|x| x == c).unwrap();
            assert!(q > p);
        }
    }
}

#[test]
fn backward_of_a_leaf_is_the_leaf() {
    let mut g = Graph::new();
    let a = ValueRef::new(&mut g, vec![]);
    assert_eq!(a.backward(&g), vec![a]);
}

#[test]
fn node_ids_are_version_four_uuids_and_differ() {
    let mut g = Graph::new();
    let a = ValueRef::new(&mut g, vec![]);
    let b = ValueRef::new(&mut g, vec![]);
    let ia = g.id(a);
    let ib = g.id(b);
    assert_ne!(ia, ib);
    assert_eq!((ia >> 76) & 0xf, 4);
    assert_eq!((ia >> 62) & 0x3, 2);
}

#[test]
fn ops_record_kind_and_children() {
    let mut g = Graph::new();
    let a = ValueRef::new(&mut g, vec![]);
    let b = ValueRef::new(&mut g, vec![a]);
    assert_eq!(g.children(b), &vec![a.index]);
    let p = a.pow(b, &mut g);
    assert_eq!(g.op(p), Op::Pow { exponent: b.index });
    assert_eq!(g.children(p), &vec![a.index]);
    let n = a.neg(&mut g);
    assert_eq!(g.op(n), Op::Mul);
    assert_eq!(g.op(ValueRef { index: n.index - 1 }), Op::Constant { numer: -1, denom: 1 });
    let d = a.div(b, &mut g);
    assert_eq!(g.op(d), Op::Mul);
    assert_eq!(g.len(), d.index + 1);
    let s = a.sub(b, &mut g);
    assert_eq!(g.op(s), Op::Add);
    let r = a.relu(&mut g);
    assert_eq!(g.op(r), Op::Relu);
    let lg = a.log(&mut g);
    assert_eq!(g.op(lg), Op::Log);
}

#[test]
fn derived_ops_compute_their_values() {
    let mut g = Graph::new();
    let a = ValueRef::new(&mut g, vec![]);
    let b = ValueRef::new(&mut g, vec![]);
    let n = a.neg(&mut g);
    let s = a.sub(b, &mut g);
    let d = a.div(b, &mut g);
    let r = n.relu(&mut g);
    let data = forward(&g, &[(a, 6.), (b, 4.)]);
    assert_eq!(data[n.index], -6.);
    assert_eq!(data[s.index], 2.);
    assert_eq!(data[d.index], 1.5);
    assert_eq!(data[r.index], 0.);
}

#[test]
fn division_gradients() {
    let mut g = Graph::new();
    let a = ValueRef::new(&mut g, vec![]);
    let b = ValueRef::new(&mut g, vec![]);
    let d = a.div(b, &mut g);
    let data = forward(&g, &[(a, 6.), (b, 2.)]);
    let grad = grads(&g, &data, d);
    assert_eq!(grad[a.index], 0.5);
    assert_eq!(grad[b.index], -1.5);
}

#[test]
fn new_nodes_carry_version_4_identifiers() {
    let mut g = Graph::new();
    let a = ValueRef::new(&mut g, vec![]);
    let b = ValueRef::constant(3, 1, &mut g);
    let c = a.div(b, &mut g);
    for i in 0..g.len() {
        let id = g.id(ValueRef { index: i });
        assert_eq!((id >> 76) & 0xf, 4);
        assert_eq!((id >> 62) & 0x3, 2);
    }
    assert_ne!(g.id(a), g.id(c));
}
