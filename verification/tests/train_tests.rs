use microgpt::autograd::{Graph, Op, ValueRef};
use microgpt::inference::sample_step;
use microgpt::train::{doc_index, encode_doc, mean_loss, position_loss, training_pairs, try_encode_doc};

#[test]
fn docs_are_taken_in_turn() {
    assert_eq!(doc_index(0, 3), 0);
    assert_eq!(doc_index(4, 3), 1);
    assert_eq!(doc_index(7, 1), 0);
}

#[test]
fn encode_doc_frames_with_bos() {
    let doc: Vec<char> = "emma".chars().collect();
    assert_eq!(encode_doc(&doc), vec![26, 4, 12, 12, 0, 26]);
    assert_eq!(encode_doc(&vec![]), vec![26, 26]);
}

#[test]
fn try_encode_doc_refuses_non_letters() {
    let ok: Vec<char> = "ava".chars().collect();
    assert_eq!(try_encode_doc(&ok), Some(vec![26, 0, 21, 0, 26]));
    let digit: Vec<char> = "a1".chars().collect();
    assert_eq!(try_encode_doc(&digit), None);
    let upper: Vec<char> = "Ann".chars().collect();
    assert_eq!(try_encode_doc(&upper), None);
}

#[test]
fn training_pairs_follow_the_block_size() {
    let ids = vec![26, 4, 12, 12, 0, 26];
    assert_eq!(training_pairs(&ids, 16), vec![(26, 4), (4, 12), (12, 12), (12, 0), (0, 26)]);
    assert_eq!(training_pairs(&ids, 2), vec![(26, 4), (4, 12)]);
    assert_eq!(training_pairs(&vec![26], 4), vec![]);
}

#[test]
fn losses_are_built_from_the_target_probability() {
    let mut g = Graph::new();
    let p0 = ValueRef::new(&mut g, vec![]);
    let p1 = ValueRef::new(&mut g, vec![]);
    let l = position_loss(&mut g, &vec![p0, p1], 1);
    assert_eq!(g.op(l), Op::Mul);
    assert_eq!(g.children(l)[0], p1.index);
    let m = mean_loss(&mut g, &vec![l, l]);
    assert_eq!(g.op(m), Op::Mul);
    let scale = ValueRef { index: g.children(m)[0] };
    assert_eq!(g.op(scale), Op::Constant { numer: 1, denom: 2 });
}

#[test]
fn sampling_stops_at_bos() {
    let mut sample = Vec::new();
    assert!(sample_step(&mut sample, 4));
    assert!(sample_step(&mut sample, 12));
    assert!(!sample_step(&mut sample, 26));
    assert_eq!(sample, vec!['e', 'm']);
}
