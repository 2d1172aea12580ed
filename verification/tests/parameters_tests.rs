use microgpt::autograd::{Graph, Op, ValueRef};
use microgpt::parameters::{LayerMatrix, ParamKey, Parameters, StateDict};

#[test]
fn count_params() {
    // asset
    let mut g = Graph::new();
    let params = Parameters::new(&mut g, 4, 8, 2, 2, 4);

    // action
    let params_count = params.params().len();

    // assert
    assert_eq!(params_count, 32 + 32 + 32 + (4 * 8 * 8 + 2 * 4 * 8 * 8) * 2);
}

#[test]
fn parameter_layout_and_shapes() {
    let mut g = Graph::new();
    let params = Parameters::new(&mut g, 5, 3, 3, 1, 7);
    assert_eq!(params.head_dim, 1);
    assert_eq!(params.state_dict.len(), 9);
    let shape = |k: ParamKey| {
        let m = params.state_dict.get(k).unwrap();
        (m.len(), m[0].len())
    };
    assert_eq!(shape(ParamKey::Wte), (5, 3));
    assert_eq!(shape(ParamKey::Wpe), (7, 3));
    assert_eq!(shape(ParamKey::LmHead), (5, 3));
    assert_eq!(shape(ParamKey::Layer(0, LayerMatrix::AttnWq)), (3, 3));
    assert_eq!(shape(ParamKey::Layer(0, LayerMatrix::MlpFc1)), (12, 3));
    assert_eq!(shape(ParamKey::Layer(0, LayerMatrix::MlpFc2)), (3, 12));
    assert!(params.state_dict.get(ParamKey::Layer(1, LayerMatrix::AttnWq)).is_none());
    // the parameters are the graph's nodes, in order, all fresh inputs
    let ps = params.params();
    assert_eq!(ps.len(), g.len());
    for (k, p) in ps.iter().enumerate() {
        assert_eq!(p.index, k);
        assert_eq!(g.op(*p), Op::Input);
        assert!(g.children(*p).is_empty());
    }
    assert_eq!(params.state_dict.get(ParamKey::Wpe).unwrap()[0][0].index, 15);
}

#[test]
fn state_dict_insert_replaces() {
    let mut d = StateDict::new();
    d.insert(ParamKey::Wte, vec![vec![ValueRef { index: 1 }]]);
    d.insert(ParamKey::Wpe, vec![]);
    d.insert(ParamKey::Wte, vec![vec![ValueRef { index: 2 }]]);
    assert_eq!(d.len(), 2);
    assert_eq!(d.get(ParamKey::Wte).unwrap()[0][0].index, 2);
    assert_eq!(d.params(), vec![ValueRef { index: 2 }]);
    assert!(d.get(ParamKey::LmHead).is_none());
}

#[test]
fn no_layers_need_no_perceptron_width() {
    let mut g = Graph::new();
    let params = Parameters::new(&mut g, 0, usize::MAX, 1, 0, 0);
    assert_eq!(params.params().len(), 0);
    assert_eq!(params.state_dict.len(), 3);
    assert_eq!(params.head_dim, usize::MAX);
}
