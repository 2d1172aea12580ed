use vstd::prelude::*;
use crate::autograd::{self, Graph, NodeView, Term, ValueRef};
use crate::parameters::Parameters;

verus! {

/// Every handle in `vs` names a node of `g`.
pub open spec fn valid_refs(g: Seq<NodeView>, vs: Seq<ValueRef>) -> bool {
    forall|k: int| 0 <= k < vs.len() ==> #[trigger] vs[k].index < g.len()
}

/// Every row of `m` holds only handles on nodes of `g`.
pub open spec fn valid_rows(g: Seq<NodeView>, m: Seq<Vec<ValueRef>>) -> bool {
    forall|r: int| 0 <= r < m.len() ==> valid_refs(g, #[trigger] m[r]@)
}

/// What the nodes named in `vs` compute.
pub open spec fn terms_of(g: Seq<NodeView>, vs: Seq<ValueRef>) -> Seq<Term> {
    Seq::new(vs.len(), |j: int| autograd::tm(g, vs[j]))
}

/// What the nodes named in each row of `m` compute.
pub open spec fn rows_terms(g: Seq<NodeView>, m: Seq<Vec<ValueRef>>) -> Seq<Seq<Term>> {
    Seq::new(m.len(), |r: int| terms_of(g, m[r]@))
}

/// `out` names nodes of `g` that compute `ts`, one for one.
pub open spec fn terms_are(g: Seq<NodeView>, out: Seq<ValueRef>, ts: Seq<Term>) -> bool {
    &&& out.len() == ts.len()
    &&& valid_refs(g, out)
    &&& forall|k: int| 0 <= k < out.len() ==> #[trigger] autograd::tm(g, out[k]) == ts[k]
}

/// The smaller of two lengths.
pub open spec fn min_len(a: int, b: int) -> int {
    if a <= b {
        a
    } else {
        b
    }
}

/// The running sum `((0 + ts[0]) + ts[1]) + ...`, as the folds of the model build it.
pub open spec fn sum_terms(ts: Seq<Term>) -> Term
    decreases ts.len(),
{
    if ts.len() == 0 {
        Term::Constant(0i128, 1u64)
    } else {
        Term::Add(Box::new(sum_terms(ts.drop_last())), Box::new(ts.last()))
    }
}

/// The products `a[start + j] * b[start + j]` for `j < n`.
pub open spec fn products(a: Seq<Term>, b: Seq<Term>, start: int, n: int) -> Seq<Term> {
    Seq::new(n as nat, |j: int| Term::Mul(Box::new(a[start + j]), Box::new(b[start + j])))
}

/// The dot product of `n` entries of `a` and `b` from `start` on, folded from zero.
pub open spec fn dot_spec(a: Seq<Term>, b: Seq<Term>, start: int, n: int) -> Term {
    sum_terms(products(a, b, start, n))
}

/// Each row of `w` dotted with `x`, as far as both reach.
pub open spec fn linear_spec(x: Seq<Term>, w: Seq<Seq<Term>>) -> Seq<Term> {
    Seq::new(w.len(), |i: int| dot_spec(w[i], x, 0, min_len(w[i].len() as int, x.len() as int)))
}

/// The factor by which `rmsnorm` scales: `(sum of squares / n + 1e-5) ^ -0.5`.
pub open spec fn rms_scale(x: Seq<Term>) -> Term {
    let mean_square = Term::Mul(
        Box::new(dot_spec(x, x, 0, x.len() as int)),
        Box::new(Term::Pow(Box::new(Term::Constant(x.len() as i128, 1u64)), Box::new(Term::Constant(-1i128, 1u64)))),
    );
    Term::Pow(
        Box::new(Term::Add(Box::new(mean_square), Box::new(Term::Constant(1i128, 100000u64)))),
        Box::new(Term::Constant(-1i128, 2u64)),
    )
}

/// Each of `x` times `rms_scale(x)`.
pub open spec fn rmsnorm_spec(x: Seq<Term>) -> Seq<Term> {
    Seq::new(x.len(), |j: int| Term::Mul(Box::new(x[j]), Box::new(rms_scale(x))))
}

/// The terms `exp(logits[j] - logits[m])` of `softmax`, the subtraction made as an
/// addition of the negation.
pub open spec fn softmax_exps(logits: Seq<Term>, m: int) -> Seq<Term> {
    Seq::new(
        logits.len(),
        |j: int|
            Term::Exp(
                Box::new(
                    Term::Add(
                        Box::new(logits[j]),
                        Box::new(Term::Mul(Box::new(logits[m]), Box::new(Term::Constant(-1i128, 1u64)))),
                    ),
                ),
            ),
    )
}

/// Each of `softmax_exps` divided by their running sum.
pub open spec fn softmax_spec(logits: Seq<Term>, m: int) -> Seq<Term> {
    Seq::new(
        logits.len(),
        |j: int|
            Term::Mul(
                Box::new(softmax_exps(logits, m)[j]),
                Box::new(Term::Pow(Box::new(sum_terms(softmax_exps(logits, m))), Box::new(Term::Constant(-1i128, 1u64)))),
            ),
    )
}

/// One attention logit: the dot product of the head's slices of `q` and `key`,
/// divided by the square root of the head's width.
pub open spec fn attn_logit_term(q: Seq<Term>, key: Seq<Term>, hs: int, head_dim: int) -> Term {
    Term::Mul(
        Box::new(dot_spec(q, key, hs, head_dim)),
        Box::new(
            Term::Pow(
                Box::new(Term::Pow(Box::new(Term::Constant(head_dim as i128, 1u64)), Box::new(Term::Constant(1i128, 2u64)))),
                Box::new(Term::Constant(-1i128, 1u64)),
            ),
        ),
    )
}

/// The attention logits of one head against every cached key.
pub open spec fn attn_logits_spec(q: Seq<Term>, keys: Seq<Seq<Term>>, hs: int, head_dim: int) -> Seq<Term> {
    Seq::new(keys.len(), |t: int| attn_logit_term(q, keys[t], hs, head_dim))
}

/// The products `weights[t] * values[t][col]` over the cached positions `t`.
pub open spec fn column_products(weights: Seq<Term>, values: Seq<Seq<Term>>, col: int) -> Seq<Term> {
    Seq::new(values.len(), |t: int| Term::Mul(Box::new(weights[t]), Box::new(values[t][col])))
}

/// The output of one head: per column of its slice, the weighted sum of the values.
pub open spec fn head_output_spec(weights: Seq<Term>, values: Seq<Seq<Term>>, hs: int, head_dim: int) -> Seq<Term> {
    Seq::new(head_dim as nat, |j: int| sum_terms(column_products(weights, values, hs + j)))
}

/// The sums `a[j] + b[j]`, as far as both reach.
pub open spec fn add_spec(a: Seq<Term>, b: Seq<Term>) -> Seq<Term> {
    Seq::new(min_len(a.len() as int, b.len() as int) as nat, |j: int| Term::Add(Box::new(a[j]), Box::new(b[j])))
}

/// `relu` of each of `x`.
pub open spec fn relu_spec(x: Seq<Term>) -> Seq<Term> {
    Seq::new(x.len(), |j: int| Term::Relu(Box::new(x[j])))
}

/// The logit at cached position `t` is the dot product of the head's slice
/// `hs..hs + head_dim` of `q` with the same slice of the key cached at `t`, times the
/// inverse of the square root of `head_dim`; it is the logit a cache holding only
/// that key would give.
pub proof fn lemma_attention_logit_at(q: Seq<Term>, keys: Seq<Seq<Term>>, hs: int, head_dim: int, t: int)
    requires
        0 <= t < keys.len(),
        0 <= head_dim,
    ensures
        attn_logits_spec(q, keys, hs, head_dim).len() == keys.len(),
        attn_logits_spec(q, keys, hs, head_dim)[t] == Term::Mul(
            Box::new(
                sum_terms(
                    Seq::new(head_dim as nat, |j: int| Term::Mul(Box::new(q[hs + j]), Box::new(keys[t][hs + j]))),
                ),
            ),
            Box::new(
                Term::Pow(
                    Box::new(Term::Pow(Box::new(Term::Constant(head_dim as i128, 1u64)), Box::new(Term::Constant(1i128, 2u64)))),
                    Box::new(Term::Constant(-1i128, 1u64)),
                ),
            ),
        ),
        attn_logits_spec(q, keys, hs, head_dim)[t] == attn_logits_spec(q, seq![keys[t]], hs, head_dim)[0],
{
    assert(products(q, keys[t], hs, head_dim) =~= Seq::new(
        head_dim as nat,
        |j: int| Term::Mul(Box::new(q[hs + j]), Box::new(keys[t][hs + j])),
    ));
    assert(seq![keys[t]][0] == keys[t]);
}

/// Caching one more key keeps the logits of the positions cached before, and adds the
/// new key's logit at the end.
pub proof fn lemma_attention_logits_append(q: Seq<Term>, keys: Seq<Seq<Term>>, key: Seq<Term>, hs: int, head_dim: int)
    ensures
        attn_logits_spec(q, keys.push(key), hs, head_dim) == attn_logits_spec(q, keys, hs, head_dim).push(
            attn_logits_spec(q, seq![key], hs, head_dim)[0],
        ),
{
    assert(seq![key][0] == key);
    assert(attn_logits_spec(q, keys.push(key), hs, head_dim) =~= attn_logits_spec(q, keys, hs, head_dim).push(
        attn_logits_spec(q, seq![key], hs, head_dim)[0],
    ));
}

/// Column `j` of a head's output is the running sum over the cached positions `t` of
/// the weight of `t` times entry `hs + j` of the value cached at `t`: weight and value
/// come from the same position.
pub proof fn lemma_head_output_at(weights: Seq<Term>, values: Seq<Seq<Term>>, hs: int, head_dim: int, j: int)
    requires
        0 <= j < head_dim,
    ensures
        head_output_spec(weights, values, hs, head_dim).len() == head_dim,
        head_output_spec(weights, values, hs, head_dim)[j] == sum_terms(
            Seq::new(values.len(), |t: int| Term::Mul(Box::new(weights[t]), Box::new(values[t][hs + j]))),
        ),
{
    assert(column_products(weights, values, hs + j) =~= Seq::new(
        values.len(),
        |t: int| Term::Mul(Box::new(weights[t]), Box::new(values[t][hs + j])),
    ));
}

/// One more cached position, with its weight `w` and value `v`, adds `w` times entry
/// `hs + j` of `v` to column `j` of the head's output.
pub proof fn lemma_head_output_append(
    weights: Seq<Term>,
    values: Seq<Seq<Term>>,
    w: Term,
    v: Seq<Term>,
    hs: int,
    head_dim: int,
    j: int,
)
    requires
        weights.len() == values.len(),
        0 <= j < head_dim,
    ensures
        head_output_spec(weights.push(w), values.push(v), hs, head_dim)[j] == Term::Add(
            Box::new(head_output_spec(weights, values, hs, head_dim)[j]),
            Box::new(Term::Mul(Box::new(w), Box::new(v[hs + j]))),
        ),
{
    let longer = column_products(weights.push(w), values.push(v), hs + j);
    assert(longer.drop_last() =~= column_products(weights, values, hs + j));
    assert(longer.last() == Term::Mul(Box::new(w), Box::new(v[hs + j])));
}

/// Every softmax output is its own exponential `exp(logits[j] - logits[m])` divided by
/// the running sum of the exponentials of all the logits, whichever position `m` names.
pub proof fn lemma_softmax_at(logits: Seq<Term>, m: int, j: int)
    requires
        0 <= j < logits.len(),
    ensures
        softmax_spec(logits, m).len() == logits.len(),
        softmax_spec(logits, m)[j] == Term::Mul(
            Box::new(
                Term::Exp(
                    Box::new(
                        Term::Add(
                            Box::new(logits[j]),
                            Box::new(Term::Mul(Box::new(logits[m]), Box::new(Term::Constant(-1i128, 1u64)))),
                        ),
                    ),
                ),
            ),
            Box::new(
                Term::Pow(
                    Box::new(
                        sum_terms(
                            Seq::new(
                                logits.len(),
                                |k: int|
                                    Term::Exp(
                                        Box::new(
                                            Term::Add(
                                                Box::new(logits[k]),
                                                Box::new(
                                                    Term::Mul(Box::new(logits[m]), Box::new(Term::Constant(-1i128, 1u64))),
                                                ),
                                            ),
                                        ),
                                    ),
                            ),
                        ),
                    ),
                    Box::new(Term::Constant(-1i128, 1u64)),
                ),
            ),
        ),
{
    assert(softmax_exps(logits, m) =~= Seq::new(
        logits.len(),
        |k: int|
            Term::Exp(
                Box::new(
                    Term::Add(
                        Box::new(logits[k]),
                        Box::new(Term::Mul(Box::new(logits[m]), Box::new(Term::Constant(-1i128, 1u64)))),
                    ),
                ),
            ),
    ));
}

/// Every output of `rmsnorm` is its input times `(s / n + 1e-5) ^ -0.5`, where `s` is the
/// running sum of the squares of all the inputs and `n` is their number, `x.len()`.
pub proof fn lemma_rmsnorm_at(x: Seq<Term>, j: int)
    requires
        0 <= j < x.len(),
    ensures
        rmsnorm_spec(x).len() == x.len(),
        rmsnorm_spec(x)[j] == Term::Mul(
            Box::new(x[j]),
            Box::new(
                Term::Pow(
                    Box::new(
                        Term::Add(
                            Box::new(
                                Term::Mul(
                                    Box::new(
                                        sum_terms(Seq::new(x.len(), |k: int| Term::Mul(Box::new(x[k]), Box::new(x[k])))),
                                    ),
                                    Box::new(
                                        Term::Pow(
                                            Box::new(Term::Constant(x.len() as i128, 1u64)),
                                            Box::new(Term::Constant(-1i128, 1u64)),
                                        ),
                                    ),
                                ),
                            ),
                            Box::new(Term::Constant(1i128, 100000u64)),
                        ),
                    ),
                    Box::new(Term::Constant(-1i128, 2u64)),
                ),
            ),
        ),
{
    assert(products(x, x, 0, x.len() as int) =~= Seq::new(
        x.len(),
        |k: int| Term::Mul(Box::new(x[k]), Box::new(x[k])),
    ));
}

/// The terms of handles that name nodes of `old` stay as they were in `new`.
pub proof fn lemma_refs_stable(old: Seq<NodeView>, new: Seq<NodeView>, vs: Seq<ValueRef>)
    requires
        autograd::extends(old, new),
        valid_refs(old, vs),
    ensures
        valid_refs(new, vs),
        forall|k: int| 0 <= k < vs.len() ==> #[trigger] autograd::tm(new, vs[k]) == autograd::tm(old, vs[k]),
        terms_of(new, vs) == terms_of(old, vs),
{
    assert forall|k: int| 0 <= k < vs.len() implies #[trigger] autograd::tm(new, vs[k]) == autograd::tm(old, vs[k]) by {
        autograd::lemma_term_stable(old, new, vs[k].index);
    }
    assert(terms_of(new, vs) =~= terms_of(old, vs));
}

/// The rows' terms stay as they were as the graph grows.
pub proof fn lemma_rows_stable(old: Seq<NodeView>, new: Seq<NodeView>, m: Seq<Vec<ValueRef>>)
    requires
        autograd::extends(old, new),
        valid_rows(old, m),
    ensures
        valid_rows(new, m),
        rows_terms(new, m) == rows_terms(old, m),
{
    assert forall|r: int| 0 <= r < m.len() implies valid_refs(new, #[trigger] m[r]@) && terms_of(new, m[r]@)
        == terms_of(old, m[r]@) by {
        lemma_refs_stable(old, new, m[r]@);
    }
    assert(rows_terms(new, m) =~= rows_terms(old, m));
}

/// Growing the graph keeps what named nodes compute.
pub proof fn lemma_terms_are_stable(old: Seq<NodeView>, new: Seq<NodeView>, out: Seq<ValueRef>, ts: Seq<Term>)
    requires
        autograd::extends(old, new),
        terms_are(old, out, ts),
    ensures
        terms_are(new, out, ts),
{
    lemma_refs_stable(old, new, out);
}

/// `terms_are` says what `terms_of` gives.
pub proof fn lemma_terms_are_terms_of(g: Seq<NodeView>, out: Seq<ValueRef>, ts: Seq<Term>)
    requires
        terms_are(g, out, ts),
    ensures
        terms_of(g, out) == ts,
        valid_refs(g, out),
{
    assert(terms_of(g, out) =~= ts);
}

/// The sum `0 + a[start]*b[start] + ... + a[start+n-1]*b[start+n-1]`, built the way
/// the model folds a dot product.
pub fn dot(graph: &mut Graph, a: &Vec<ValueRef>, b: &Vec<ValueRef>, start: usize, n: usize) -> (r: ValueRef)
    requires
        autograd::well_formed(old(graph)@),
        valid_refs(old(graph)@, a@),
        valid_refs(old(graph)@, b@),
        start + n <= a@.len(),
        start + n <= b@.len(),
    ensures
        autograd::well_formed(final(graph)@),
        autograd::extends(old(graph)@, final(graph)@),
        r.index < final(graph)@.len(),
        autograd::tm(final(graph)@, r) == dot_spec(
            terms_of(old(graph)@, a@),
            terms_of(old(graph)@, b@),
            start as int,
            n as int,
        ),
{
    let ghost g0 = graph@;
    let ghost ta = terms_of(g0, a@);
    let ghost tb = terms_of(g0, b@);
    let a_len = a.len();
    let mut acc = ValueRef::constant(0, 1, graph);
    proof {
        assert(products(ta, tb, start as int, 0) =~= Seq::<Term>::empty());
        assert(graph@.take(g0.len() as int) == g0);
    }
    let mut j: usize = 0;
    while j < n
        invariant
            autograd::well_formed(graph@),
            autograd::extends(g0, graph@),
            valid_refs(g0, a@),
            valid_refs(g0, b@),
            ta == terms_of(g0, a@),
            tb == terms_of(g0, b@),
            start + n <= a@.len(),
            start + n <= b@.len(),
            a_len == a@.len(),
            j <= n,
            acc.index < graph@.len(),
            autograd::tm(graph@, acc) == sum_terms(products(ta, tb, start as int, j as int)),
        decreases n - j,
    {
        let ghost g1 = graph@;
        proof {
            lemma_refs_stable(g0, g1, a@);
            lemma_refs_stable(g0, g1, b@);
        }
        let prod = a[start + j].mul(b[start + j], graph);
        let ghost g2 = graph@;
        proof {
            autograd::lemma_term_stable(g1, g2, acc.index);
        }
        acc = acc.add(prod, graph);
        proof {
            autograd::lemma_extends_trans(g1, g2, graph@);
            autograd::lemma_extends_trans(g0, g1, graph@);
            let ps = products(ta, tb, start as int, j + 1);
            assert(ps.drop_last() =~= products(ta, tb, start as int, j as int));
            assert(ps.last() == autograd::tm(g2, prod));
        }
        j += 1;
    }
    acc
}

/// The running sum `0 + vs[0] + vs[1] + ...`.
pub fn sum_all(graph: &mut Graph, vs: &Vec<ValueRef>) -> (r: ValueRef)
    requires
        autograd::well_formed(old(graph)@),
        valid_refs(old(graph)@, vs@),
    ensures
        autograd::well_formed(final(graph)@),
        autograd::extends(old(graph)@, final(graph)@),
        r.index < final(graph)@.len(),
        autograd::tm(final(graph)@, r) == sum_terms(terms_of(old(graph)@, vs@)),
{
    let ghost g0 = graph@;
    let mut acc = ValueRef::constant(0, 1, graph);
    proof {
        assert(terms_of(g0, vs@).take(0) =~= Seq::<Term>::empty());
        assert(graph@.take(g0.len() as int) == g0);
    }
    let mut j: usize = 0;
    while j < vs.len()
        invariant
            autograd::well_formed(graph@),
            autograd::extends(g0, graph@),
            valid_refs(g0, vs@),
            j <= vs@.len(),
            acc.index < graph@.len(),
            autograd::tm(graph@, acc) == sum_terms(terms_of(g0, vs@).take(j as int)),
        decreases vs@.len() - j,
    {
        let ghost g1 = graph@;
        proof {
            lemma_refs_stable(g0, g1, vs@);
        }
        acc = acc.add(vs[j], graph);
        proof {
            autograd::lemma_extends_trans(g0, g1, graph@);
            let ts = terms_of(g0, vs@).take(j + 1);
            assert(ts.drop_last() =~= terms_of(g0, vs@).take(j as int));
        }
        j += 1;
    }
    proof {
        assert(terms_of(g0, vs@).take(vs@.len() as int) =~= terms_of(g0, vs@));
    }
    acc
}

/// Each row of `w` folded with `x` into a sum of products: one output per row.
pub fn linear(graph: &mut Graph, x: &Vec<ValueRef>, w: &Vec<Vec<ValueRef>>) -> (out: Vec<ValueRef>)
    requires
        autograd::well_formed(old(graph)@),
        valid_refs(old(graph)@, x@),
        valid_rows(old(graph)@, w@),
    ensures
        autograd::well_formed(final(graph)@),
        autograd::extends(old(graph)@, final(graph)@),
        terms_are(final(graph)@, out@, linear_spec(terms_of(old(graph)@, x@), rows_terms(old(graph)@, w@))),
{
    let ghost g0 = graph@;
    let ghost target = linear_spec(terms_of(g0, x@), rows_terms(g0, w@));
    let mut out: Vec<ValueRef> = Vec::new();
    let mut i: usize = 0;
    proof {
        assert(graph@.take(g0.len() as int) =~= g0);
        assert(target.take(0) =~= Seq::<Term>::empty());
    }
    while i < w.len()
        invariant
            autograd::well_formed(graph@),
            autograd::extends(g0, graph@),
            valid_refs(g0, x@),
            valid_rows(g0, w@),
            i <= w@.len(),
            target == linear_spec(terms_of(g0, x@), rows_terms(g0, w@)),
            terms_are(graph@, out@, target.take(i as int)),
        decreases w@.len() - i,
    {
        let ghost g1 = graph@;
        let row = &w[i];
        let n = if row.len() <= x.len() { row.len() } else { x.len() };
        proof {
            assert(valid_refs(g0, w@[i as int]@));
            lemma_refs_stable(g0, g1, row@);
            lemma_refs_stable(g0, g1, x@);
            assert(rows_terms(g0, w@)[i as int] == terms_of(g0, row@));
        }
        let r = dot(graph, row, x, 0, n);
        proof {
            lemma_terms_are_stable(g1, graph@, out@, target.take(i as int));
            autograd::lemma_extends_trans(g0, g1, graph@);
        }
        out.push(r);
        proof {
            assert(target.take(i + 1) =~= target.take(i as int).push(target[i as int]));
        }
        i += 1;
    }
    proof {
        assert(target.take(w@.len() as int) =~= target);
    }
    out
}

/// Each of `x` scaled by its root mean square's reciprocal (with `1e-5` added inside).
pub fn rmsnorm(graph: &mut Graph, x: &Vec<ValueRef>) -> (out: Vec<ValueRef>)
    requires
        autograd::well_formed(old(graph)@),
        valid_refs(old(graph)@, x@),
    ensures
        autograd::well_formed(final(graph)@),
        autograd::extends(old(graph)@, final(graph)@),
        terms_are(final(graph)@, out@, rmsnorm_spec(terms_of(old(graph)@, x@))),
{
    let ghost g0 = graph@;
    let ghost tx = terms_of(g0, x@);
    let n = x.len();
    let squares = dot(graph, x, x, 0, n);
    let ghost g1 = graph@;
    let count = ValueRef::constant(n as i128, 1, graph);
    let ghost g2 = graph@;
    proof {
        autograd::lemma_term_stable(g1, g2, squares.index);
    }
    let mean_square = squares.div(count, graph);
    let ghost g3 = graph@;
    let eps = ValueRef::constant(1, 100000, graph);
    let ghost g4 = graph@;
    proof {
        autograd::lemma_term_stable(g3, g4, mean_square.index);
    }
    let shifted = mean_square.add(eps, graph);
    let ghost g5 = graph@;
    let exponent = ValueRef::constant(-1, 2, graph);
    let ghost g6 = graph@;
    proof {
        autograd::lemma_term_stable(g5, g6, shifted.index);
    }
    let scale = shifted.pow(exponent, graph);
    let ghost g7 = graph@;
    proof {
        autograd::lemma_extends_trans(g0, g1, g2);
        autograd::lemma_extends_trans(g0, g2, g3);
        autograd::lemma_extends_trans(g0, g3, g4);
        autograd::lemma_extends_trans(g0, g4, g5);
        autograd::lemma_extends_trans(g0, g5, g6);
        autograd::lemma_extends_trans(g0, g6, g7);
        assert(autograd::tm(g7, scale) == rms_scale(tx));
        assert(g7.take(g7.len() as int) =~= g7);
    }
    let ghost target = rmsnorm_spec(tx);
    let mut out: Vec<ValueRef> = Vec::new();
    let mut j: usize = 0;
    proof {
        assert(target.take(0) =~= Seq::<Term>::empty());
    }
    while j < n
        invariant
            autograd::well_formed(graph@),
            autograd::extends(g0, graph@),
            autograd::extends(g7, graph@),
            valid_refs(g0, x@),
            tx == terms_of(g0, x@),
            n == x@.len(),
            j <= n,
            scale.index < g7.len(),
            autograd::tm(g7, scale) == rms_scale(tx),
            target == rmsnorm_spec(tx),
            terms_are(graph@, out@, target.take(j as int)),
        decreases n - j,
    {
        let ghost g8 = graph@;
        proof {
            lemma_refs_stable(g0, g8, x@);
            autograd::lemma_term_stable(g7, g8, scale.index);
        }
        let r = x[j].mul(scale, graph);
        proof {
            lemma_terms_are_stable(g8, graph@, out@, target.take(j as int));
            autograd::lemma_extends_trans(g0, g8, graph@);
            autograd::lemma_extends_trans(g7, g8, graph@);
        }
        out.push(r);
        proof {
            assert(target.take(j + 1) =~= target.take(j as int).push(target[j as int]));
        }
        j += 1;
    }
    proof {
        assert(target.take(n as int) =~= target);
    }
    out
}

/// The softmax of `logits`: each shifted by the logit at `max_index` (the largest, as
/// the caller picked it from the values), exponentiated, and divided by the sum of
/// the exponentials.
pub fn softmax(graph: &mut Graph, logits: &Vec<ValueRef>, max_index: usize) -> (out: Vec<ValueRef>)
    requires
        autograd::well_formed(old(graph)@),
        valid_refs(old(graph)@, logits@),
        max_index < logits@.len(),
    ensures
        autograd::well_formed(final(graph)@),
        autograd::extends(old(graph)@, final(graph)@),
        terms_are(final(graph)@, out@, softmax_spec(terms_of(old(graph)@, logits@), max_index as int)),
{
    let ghost g0 = graph@;
    let ghost tl = terms_of(g0, logits@);
    let ghost exps_t = softmax_exps(tl, max_index as int);
    let max_val = logits[max_index];
    let n = logits.len();
    let mut exps: Vec<ValueRef> = Vec::new();
    let mut j: usize = 0;
    proof {
        assert(graph@.take(g0.len() as int) =~= g0);
        assert(exps_t.take(0) =~= Seq::<Term>::empty());
    }
    while j < n
        invariant
            autograd::well_formed(graph@),
            autograd::extends(g0, graph@),
            valid_refs(g0, logits@),
            tl == terms_of(g0, logits@),
            n == logits@.len(),
            max_index < n,
            max_val == logits@[max_index as int],
            j <= n,
            exps_t == softmax_exps(tl, max_index as int),
            terms_are(graph@, exps@, exps_t.take(j as int)),
        decreases n - j,
    {
        let ghost g1 = graph@;
        proof {
            lemma_refs_stable(g0, g1, logits@);
        }
        let shifted = logits[j].sub(max_val, graph);
        let ghost g2 = graph@;
        let e = shifted.exp(graph);
        proof {
            autograd::lemma_extends_trans(g1, g2, graph@);
            autograd::lemma_extends_trans(g0, g1, graph@);
            lemma_terms_are_stable(g1, graph@, exps@, exps_t.take(j as int));
        }
        exps.push(e);
        proof {
            assert(exps_t.take(j + 1) =~= exps_t.take(j as int).push(exps_t[j as int]));
        }
        j += 1;
    }
    proof {
        assert(exps_t.take(n as int) =~= exps_t);
        assert(terms_of(graph@, exps@) =~= exps_t);
    }
    let ghost g3 = graph@;
    let total = sum_all(graph, &exps);
    let ghost g4 = graph@;
    proof {
        lemma_terms_are_stable(g3, g4, exps@, exps_t);
        autograd::lemma_extends_trans(g0, g3, g4);
        assert(g4.take(g4.len() as int) =~= g4);
    }
    let ghost target = softmax_spec(tl, max_index as int);
    let mut out: Vec<ValueRef> = Vec::new();
    let mut k: usize = 0;
    proof {
        assert(target.take(0) =~= Seq::<Term>::empty());
    }
    while k < n
        invariant
            autograd::well_formed(graph@),
            autograd::extends(g0, graph@),
            autograd::extends(g4, graph@),
            n == logits@.len(),
            tl.len() == n,
            k <= n,
            exps_t == softmax_exps(tl, max_index as int),
            terms_are(g4, exps@, exps_t),
            total.index < g4.len(),
            autograd::tm(g4, total) == sum_terms(exps_t),
            target == softmax_spec(tl, max_index as int),
            terms_are(graph@, out@, target.take(k as int)),
        decreases n - k,
    {
        let ghost g5 = graph@;
        proof {
            lemma_terms_are_stable(g4, g5, exps@, exps_t);
            autograd::lemma_term_stable(g4, g5, total.index);
        }
        let r = exps[k].div(total, graph);
        proof {
            lemma_terms_are_stable(g5, graph@, out@, target.take(k as int));
            autograd::lemma_extends_trans(g0, g5, graph@);
            autograd::lemma_extends_trans(g4, g5, graph@);
        }
        out.push(r);
        proof {
            assert(target.take(k + 1) =~= target.take(k as int).push(target[k as int]));
        }
        k += 1;
    }
    proof {
        assert(target.take(n as int) =~= target);
    }
    out
}

/// Every vector of `vs` has at least `n` entries.
pub open spec fn all_longer(vs: Seq<Vec<ValueRef>>, n: int) -> bool {
    forall|t: int| 0 <= t < vs.len() ==> n <= #[trigger] vs[t]@.len()
}

/// The attention logits of the head whose slice starts at `hs`, one per cached key.
pub fn attention_logits(
    graph: &mut Graph,
    q: &Vec<ValueRef>,
    keys: &Vec<Vec<ValueRef>>,
    hs: usize,
    head_dim: usize,
) -> (out: Vec<ValueRef>)
    requires
        autograd::well_formed(old(graph)@),
        valid_refs(old(graph)@, q@),
        valid_rows(old(graph)@, keys@),
        hs + head_dim <= q@.len(),
        all_longer(keys@, hs + head_dim),
    ensures
        autograd::well_formed(final(graph)@),
        autograd::extends(old(graph)@, final(graph)@),
        terms_are(
            final(graph)@,
            out@,
            attn_logits_spec(terms_of(old(graph)@, q@), rows_terms(old(graph)@, keys@), hs as int, head_dim as int),
        ),
{
    let ghost g0 = graph@;
    let ghost target = attn_logits_spec(terms_of(g0, q@), rows_terms(g0, keys@), hs as int, head_dim as int);
    let mut out: Vec<ValueRef> = Vec::new();
    let mut t: usize = 0;
    proof {
        assert(graph@.take(g0.len() as int) =~= g0);
        assert(target.take(0) =~= Seq::<Term>::empty());
    }
    while t < keys.len()
        invariant
            autograd::well_formed(graph@),
            autograd::extends(g0, graph@),
            valid_refs(g0, q@),
            valid_rows(g0, keys@),
            hs + head_dim <= q@.len(),
            all_longer(keys@, hs + head_dim),
            t <= keys@.len(),
            target == attn_logits_spec(terms_of(g0, q@), rows_terms(g0, keys@), hs as int, head_dim as int),
            terms_are(graph@, out@, target.take(t as int)),
        decreases keys@.len() - t,
    {
        let ghost g1 = graph@;
        let key = &keys[t];
        proof {
            assert(valid_refs(g0, key@));
            assert(hs + head_dim <= key@.len());
            lemma_refs_stable(g0, g1, key@);
            lemma_refs_stable(g0, g1, q@);
            assert(rows_terms(g0, keys@)[t as int] == terms_of(g0, key@));
        }
        let d = dot(graph, q, key, hs, head_dim);
        let ghost g2 = graph@;
        let width = ValueRef::constant(head_dim as i128, 1, graph);
        let ghost g2a = graph@;
        let half = ValueRef::constant(1, 2, graph);
        let ghost g2b = graph@;
        proof {
            autograd::lemma_term_stable(g2a, g2b, width.index);
        }
        let root = width.pow(half, graph);
        let ghost g3 = graph@;
        proof {
            autograd::lemma_extends_trans(g2, g2a, g2b);
            autograd::lemma_extends_trans(g2, g2b, g3);
            autograd::lemma_term_stable(g2, g3, d.index);
        }
        let r = d.div(root, graph);
        proof {
            autograd::lemma_extends_trans(g1, g2, g3);
            autograd::lemma_extends_trans(g1, g3, graph@);
            autograd::lemma_extends_trans(g0, g1, graph@);
            lemma_terms_are_stable(g1, graph@, out@, target.take(t as int));
        }
        out.push(r);
        proof {
            assert(target.take(t + 1) =~= target.take(t as int).push(target[t as int]));
        }
        t += 1;
    }
    proof {
        assert(target.take(keys@.len() as int) =~= target);
    }
    out
}

/// The output of the head whose slice starts at `hs`: for each of its `head_dim`
/// columns, the attention-weighted sum of the cached values in that column.
pub fn head_output(
    graph: &mut Graph,
    weights: &Vec<ValueRef>,
    values: &Vec<Vec<ValueRef>>,
    hs: usize,
    head_dim: usize,
) -> (out: Vec<ValueRef>)
    requires
        autograd::well_formed(old(graph)@),
        valid_refs(old(graph)@, weights@),
        valid_rows(old(graph)@, values@),
        values@.len() <= weights@.len(),
        all_longer(values@, hs + head_dim),
    ensures
        autograd::well_formed(final(graph)@),
        autograd::extends(old(graph)@, final(graph)@),
        terms_are(
            final(graph)@,
            out@,
            head_output_spec(terms_of(old(graph)@, weights@), rows_terms(old(graph)@, values@), hs as int, head_dim as int),
        ),
{
    let ghost g0 = graph@;
    let ghost tw = terms_of(g0, weights@);
    let ghost tv = rows_terms(g0, values@);
    let ghost target = head_output_spec(tw, tv, hs as int, head_dim as int);
    let mut out: Vec<ValueRef> = Vec::new();
    let mut j: usize = 0;
    proof {
        assert(graph@.take(g0.len() as int) =~= g0);
        assert(target.take(0) =~= Seq::<Term>::empty());
    }
    while j < head_dim
        invariant
            autograd::well_formed(graph@),
            autograd::extends(g0, graph@),
            valid_refs(g0, weights@),
            valid_rows(g0, values@),
            tw == terms_of(g0, weights@),
            tv == rows_terms(g0, values@),
            values@.len() <= weights@.len(),
            all_longer(values@, hs + head_dim),
            j <= head_dim,
            target == head_output_spec(tw, tv, hs as int, head_dim as int),
            terms_are(graph@, out@, target.take(j as int)),
        decreases head_dim - j,
    {
        let ghost g1 = graph@;
        let ghost col = hs + j;
        let ghost cp = column_products(tw, tv, col);
        let mut acc = ValueRef::constant(0, 1, graph);
        let ghost g2 = graph@;
        proof {
            autograd::lemma_extends_trans(g0, g1, g2);
            assert(cp.take(0) =~= Seq::<Term>::empty());
            lemma_terms_are_stable(g1, g2, out@, target.take(j as int));
            assert(g2.take(g2.len() as int) =~= g2);
        }
        let mut t: usize = 0;
        while t < values.len()
            invariant
                autograd::well_formed(graph@),
                autograd::extends(g0, graph@),
                autograd::extends(g2, graph@),
                valid_refs(g0, weights@),
                valid_rows(g0, values@),
                tw == terms_of(g0, weights@),
                tv == rows_terms(g0, values@),
                values@.len() <= weights@.len(),
                all_longer(values@, hs + head_dim),
                j < head_dim,
                col == hs + j,
                cp == column_products(tw, tv, col),
                t <= values@.len(),
                acc.index < graph@.len(),
                autograd::tm(graph@, acc) == sum_terms(cp.take(t as int)),
                terms_are(g2, out@, target.take(j as int)),
            decreases values@.len() - t,
        {
            let ghost g3 = graph@;
            let row = &values[t];
            let row_len = row.len();
            proof {
                assert(valid_refs(g0, row@));
                assert(hs + head_dim <= row@.len());
                lemma_refs_stable(g0, g3, row@);
                lemma_refs_stable(g0, g3, weights@);
                assert(tv[t as int] == terms_of(g0, row@));
            }
            let p = weights[t].mul(row[hs + j], graph);
            let ghost g4 = graph@;
            proof {
                autograd::lemma_term_stable(g3, g4, acc.index);
            }
            acc = acc.add(p, graph);
            proof {
                autograd::lemma_extends_trans(g3, g4, graph@);
                autograd::lemma_extends_trans(g0, g3, graph@);
                autograd::lemma_extends_trans(g2, g3, graph@);
                assert(cp.take(t + 1).drop_last() =~= cp.take(t as int));
            }
            t += 1;
        }
        proof {
            assert(cp.take(values@.len() as int) =~= cp);
            lemma_terms_are_stable(g2, graph@, out@, target.take(j as int));
        }
        out.push(acc);
        proof {
            assert(target.take(j + 1) =~= target.take(j as int).push(target[j as int]));
        }
        j += 1;
    }
    proof {
        assert(target.take(head_dim as int) =~= target);
    }
    out
}

/// The sums `a[j] + b[j]`, as far as both vectors reach.
pub fn add_vectors(graph: &mut Graph, a: &Vec<ValueRef>, b: &Vec<ValueRef>) -> (out: Vec<ValueRef>)
    requires
        autograd::well_formed(old(graph)@),
        valid_refs(old(graph)@, a@),
        valid_refs(old(graph)@, b@),
    ensures
        autograd::well_formed(final(graph)@),
        autograd::extends(old(graph)@, final(graph)@),
        terms_are(final(graph)@, out@, add_spec(terms_of(old(graph)@, a@), terms_of(old(graph)@, b@))),
{
    let ghost g0 = graph@;
    let n = if a.len() <= b.len() { a.len() } else { b.len() };
    let ghost target = add_spec(terms_of(g0, a@), terms_of(g0, b@));
    let mut out: Vec<ValueRef> = Vec::new();
    let mut j: usize = 0;
    proof {
        assert(graph@.take(g0.len() as int) =~= g0);
        assert(target.take(0) =~= Seq::<Term>::empty());
    }
    while j < n
        invariant
            autograd::well_formed(graph@),
            autograd::extends(g0, graph@),
            valid_refs(g0, a@),
            valid_refs(g0, b@),
            n <= a@.len(),
            n <= b@.len(),
            n == target.len(),
            j <= n,
            target == add_spec(terms_of(g0, a@), terms_of(g0, b@)),
            terms_are(graph@, out@, target.take(j as int)),
        decreases n - j,
    {
        let ghost g1 = graph@;
        proof {
            lemma_refs_stable(g0, g1, a@);
            lemma_refs_stable(g0, g1, b@);
        }
        let r = a[j].add(b[j], graph);
        proof {
            autograd::lemma_extends_trans(g0, g1, graph@);
            lemma_terms_are_stable(g1, graph@, out@, target.take(j as int));
        }
        out.push(r);
        proof {
            assert(target.take(j + 1) =~= target.take(j as int).push(target[j as int]));
        }
        j += 1;
    }
    proof {
        assert(target.take(n as int) =~= target);
    }
    out
}

/// `relu` of each of `x`.
pub fn relu_all(graph: &mut Graph, x: &Vec<ValueRef>) -> (out: Vec<ValueRef>)
    requires
        autograd::well_formed(old(graph)@),
        valid_refs(old(graph)@, x@),
    ensures
        autograd::well_formed(final(graph)@),
        autograd::extends(old(graph)@, final(graph)@),
        terms_are(final(graph)@, out@, relu_spec(terms_of(old(graph)@, x@))),
{
    let ghost g0 = graph@;
    let ghost target = relu_spec(terms_of(g0, x@));
    let mut out: Vec<ValueRef> = Vec::new();
    let mut j: usize = 0;
    proof {
        assert(graph@.take(g0.len() as int) =~= g0);
        assert(target.take(0) =~= Seq::<Term>::empty());
    }
    while j < x.len()
        invariant
            autograd::well_formed(graph@),
            autograd::extends(g0, graph@),
            valid_refs(g0, x@),
            j <= x@.len(),
            target == relu_spec(terms_of(g0, x@)),
            terms_are(graph@, out@, target.take(j as int)),
        decreases x@.len() - j,
    {
        let ghost g1 = graph@;
        proof {
            lemma_refs_stable(g0, g1, x@);
        }
        let r = x[j].relu(graph);
        proof {
            autograd::lemma_extends_trans(g0, g1, graph@);
            lemma_terms_are_stable(g1, graph@, out@, target.take(j as int));
        }
        out.push(r);
        proof {
            assert(target.take(j + 1) =~= target.take(j as int).push(target[j as int]));
        }
        j += 1;
    }
    proof {
        assert(target.take(x@.len() as int) =~= target);
    }
    out
}

/// What the model starts a position from: the token's embedding plus the position's,
/// normalized.
pub open spec fn embed_spec(tok: Seq<Term>, pos: Seq<Term>) -> Seq<Term> {
    rmsnorm_spec(add_spec(tok, pos))
}

/// The input of a position: row `token_id` of `wte` plus row `pos_id` of `wpe`,
/// normalized.
pub fn embed(
    graph: &mut Graph,
    wte: &Vec<Vec<ValueRef>>,
    wpe: &Vec<Vec<ValueRef>>,
    token_id: usize,
    pos_id: usize,
) -> (x: Vec<ValueRef>)
    requires
        autograd::well_formed(old(graph)@),
        valid_rows(old(graph)@, wte@),
        valid_rows(old(graph)@, wpe@),
        token_id < wte@.len(),
        pos_id < wpe@.len(),
    ensures
        autograd::well_formed(final(graph)@),
        autograd::extends(old(graph)@, final(graph)@),
        terms_are(
            final(graph)@,
            x@,
            embed_spec(rows_terms(old(graph)@, wte@)[token_id as int], rows_terms(old(graph)@, wpe@)[pos_id as int]),
        ),
{
    let ghost g0 = graph@;
    let tok_emb = &wte[token_id];
    let pos_emb = &wpe[pos_id];
    proof {
        assert(valid_refs(g0, tok_emb@));
        assert(valid_refs(g0, pos_emb@));
    }
    let sum = add_vectors(graph, tok_emb, pos_emb);
    let ghost g1 = graph@;
    proof {
        lemma_terms_are_terms_of(g1, sum@, add_spec(terms_of(g0, tok_emb@), terms_of(g0, pos_emb@)));
    }
    let x = rmsnorm(graph, &sum);
    proof {
        autograd::lemma_extends_trans(g0, g1, graph@);
    }
    x
}

/// What the query, key and value of a layer are: `x` normalized, then multiplied by
/// each of the three matrices.
pub open spec fn qkv_spec(x: Seq<Term>, w: Seq<Seq<Term>>) -> Seq<Term> {
    linear_spec(rmsnorm_spec(x), w)
}

/// The query, key and value of a layer for the input `x` (which stays the residual).
pub fn layer_qkv(
    graph: &mut Graph,
    x: &Vec<ValueRef>,
    wq: &Vec<Vec<ValueRef>>,
    wk: &Vec<Vec<ValueRef>>,
    wv: &Vec<Vec<ValueRef>>,
) -> (qkv: (Vec<ValueRef>, Vec<ValueRef>, Vec<ValueRef>))
    requires
        autograd::well_formed(old(graph)@),
        valid_refs(old(graph)@, x@),
        valid_rows(old(graph)@, wq@),
        valid_rows(old(graph)@, wk@),
        valid_rows(old(graph)@, wv@),
    ensures
        autograd::well_formed(final(graph)@),
        autograd::extends(old(graph)@, final(graph)@),
        terms_are(final(graph)@, qkv.0@, qkv_spec(terms_of(old(graph)@, x@), rows_terms(old(graph)@, wq@))),
        terms_are(final(graph)@, qkv.1@, qkv_spec(terms_of(old(graph)@, x@), rows_terms(old(graph)@, wk@))),
        terms_are(final(graph)@, qkv.2@, qkv_spec(terms_of(old(graph)@, x@), rows_terms(old(graph)@, wv@))),
{
    let ghost g0 = graph@;
    let ghost xs = rmsnorm_spec(terms_of(g0, x@));
    let xn = rmsnorm(graph, x);
    let ghost g1 = graph@;
    proof {
        lemma_terms_are_terms_of(g1, xn@, xs);
        lemma_rows_stable(g0, g1, wq@);
        lemma_rows_stable(g0, g1, wk@);
        lemma_rows_stable(g0, g1, wv@);
    }
    let q = linear(graph, &xn, wq);
    let ghost g2 = graph@;
    proof {
        lemma_terms_are_stable(g1, g2, xn@, xs);
        lemma_terms_are_terms_of(g2, xn@, xs);
        lemma_rows_stable(g1, g2, wk@);
        lemma_rows_stable(g1, g2, wv@);
    }
    let k = linear(graph, &xn, wk);
    let ghost g3 = graph@;
    proof {
        lemma_terms_are_stable(g2, g3, xn@, xs);
        lemma_terms_are_terms_of(g3, xn@, xs);
        lemma_rows_stable(g2, g3, wv@);
        lemma_terms_are_stable(g2, g3, q@, qkv_spec(terms_of(g0, x@), rows_terms(g0, wq@)));
    }
    let v = linear(graph, &xn, wv);
    proof {
        lemma_terms_are_stable(g3, graph@, q@, qkv_spec(terms_of(g0, x@), rows_terms(g0, wq@)));
        lemma_terms_are_stable(g3, graph@, k@, qkv_spec(terms_of(g0, x@), rows_terms(g0, wk@)));
        autograd::lemma_extends_trans(g0, g1, g2);
        autograd::lemma_extends_trans(g0, g2, g3);
        autograd::lemma_extends_trans(g0, g3, graph@);
    }
    (q, k, v)
}

/// The output of a layer: the heads' output projected by `wo` and added to the
/// residual; then that, normalized, through the two-layer perceptron, and added to it
/// again.
pub open spec fn layer_output_spec(
    x_attn: Seq<Term>,
    residual: Seq<Term>,
    wo: Seq<Seq<Term>>,
    fc1: Seq<Seq<Term>>,
    fc2: Seq<Seq<Term>>,
) -> Seq<Term> {
    let after_attn = add_spec(linear_spec(x_attn, wo), residual);
    add_spec(linear_spec(relu_spec(linear_spec(rmsnorm_spec(after_attn), fc1)), fc2), after_attn)
}

/// The output of a layer from the concatenated head outputs `x_attn` and the layer's
/// input `residual`.
pub fn layer_output(
    graph: &mut Graph,
    x_attn: &Vec<ValueRef>,
    residual: &Vec<ValueRef>,
    wo: &Vec<Vec<ValueRef>>,
    fc1: &Vec<Vec<ValueRef>>,
    fc2: &Vec<Vec<ValueRef>>,
) -> (out: Vec<ValueRef>)
    requires
        autograd::well_formed(old(graph)@),
        valid_refs(old(graph)@, x_attn@),
        valid_refs(old(graph)@, residual@),
        valid_rows(old(graph)@, wo@),
        valid_rows(old(graph)@, fc1@),
        valid_rows(old(graph)@, fc2@),
    ensures
        autograd::well_formed(final(graph)@),
        autograd::extends(old(graph)@, final(graph)@),
        terms_are(
            final(graph)@,
            out@,
            layer_output_spec(
                terms_of(old(graph)@, x_attn@),
                terms_of(old(graph)@, residual@),
                rows_terms(old(graph)@, wo@),
                rows_terms(old(graph)@, fc1@),
                rows_terms(old(graph)@, fc2@),
            ),
        ),
{
    let ghost g0 = graph@;
    let ghost t_fc1 = rows_terms(g0, fc1@);
    let ghost t_fc2 = rows_terms(g0, fc2@);
    let ghost t_proj = linear_spec(terms_of(g0, x_attn@), rows_terms(g0, wo@));
    let ghost t_after = add_spec(t_proj, terms_of(g0, residual@));
    let ghost t_norm = rmsnorm_spec(t_after);
    let ghost t_hidden = linear_spec(t_norm, t_fc1);
    let ghost t_act = relu_spec(t_hidden);
    let ghost t_mlp = linear_spec(t_act, t_fc2);

    let projected = linear(graph, x_attn, wo);
    let ghost g1 = graph@;
    proof {
        lemma_terms_are_terms_of(g1, projected@, t_proj);
        lemma_refs_stable(g0, g1, residual@);
        lemma_rows_stable(g0, g1, fc1@);
        lemma_rows_stable(g0, g1, fc2@);
    }
    let after_attn = add_vectors(graph, &projected, residual);
    let ghost g2 = graph@;
    proof {
        lemma_terms_are_terms_of(g2, after_attn@, t_after);
        lemma_rows_stable(g1, g2, fc1@);
        lemma_rows_stable(g1, g2, fc2@);
    }
    let normed = rmsnorm(graph, &after_attn);
    let ghost g3 = graph@;
    proof {
        lemma_terms_are_terms_of(g3, normed@, t_norm);
        lemma_terms_are_stable(g2, g3, after_attn@, t_after);
        lemma_rows_stable(g2, g3, fc1@);
        lemma_rows_stable(g2, g3, fc2@);
    }
    let hidden = linear(graph, &normed, fc1);
    let ghost g4 = graph@;
    proof {
        lemma_terms_are_terms_of(g4, hidden@, t_hidden);
        lemma_terms_are_stable(g3, g4, after_attn@, t_after);
        lemma_rows_stable(g3, g4, fc2@);
    }
    let act = relu_all(graph, &hidden);
    let ghost g5 = graph@;
    proof {
        lemma_terms_are_terms_of(g5, act@, t_act);
        lemma_terms_are_stable(g4, g5, after_attn@, t_after);
        lemma_rows_stable(g4, g5, fc2@);
    }
    let mlp = linear(graph, &act, fc2);
    let ghost g6 = graph@;
    proof {
        lemma_terms_are_terms_of(g6, mlp@, t_mlp);
        lemma_terms_are_stable(g5, g6, after_attn@, t_after);
        lemma_terms_are_terms_of(g6, after_attn@, t_after);
    }
    let out = add_vectors(graph, &mlp, &after_attn);
    proof {
        autograd::lemma_extends_trans(g0, g1, g2);
        autograd::lemma_extends_trans(g0, g2, g3);
        autograd::lemma_extends_trans(g0, g3, g4);
        autograd::lemma_extends_trans(g0, g4, g5);
        autograd::lemma_extends_trans(g0, g5, g6);
        autograd::lemma_extends_trans(g0, g6, graph@);
    }
    out
}

/// A cache of one vector per position and layer, as the contracts see it.
pub open spec fn cache_view(c: Vec<Vec<Vec<ValueRef>>>) -> Seq<Seq<Seq<ValueRef>>> {
    c@.map_values(|layer: Vec<Vec<ValueRef>>| layer@.map_values(|v: Vec<ValueRef>| v@))
}

/// The caches of `m` keep, per layer, as many values as keys, and every cached key
/// and value has `m.n_embd` entries.
pub open spec fn caches_shaped(m: &Model) -> bool {
    let k = cache_view(m.keys);
    let v = cache_view(m.values);
    &&& k.len() == v.len()
    &&& forall|li: int| 0 <= li < k.len() ==> (#[trigger] k[li]).len() == v[li].len()
    &&& forall|li: int, t: int| 0 <= li < k.len() && 0 <= t < k[li].len() ==> (#[trigger] k[li][t]).len() == m.n_embd
    &&& forall|li: int, t: int| 0 <= li < v.len() && 0 <= t < v[li].len() ==> (#[trigger] v[li][t]).len() == m.n_embd
}

/// The model: its sizes, its parameters, and the keys and values cached per layer for
/// the positions seen so far.
pub struct Model {
    /// Number of layers.
    pub n_layer: usize,
    /// Number of attention heads.
    pub n_head: usize,
    /// Embedding dimension.
    pub n_embd: usize,
    /// Width of one head: `n_embd / n_head`.
    pub head_dim: usize,
    /// The parameter matrices.
    pub parameters: Parameters,
    /// Per layer, the key vector of every position seen so far.
    pub keys: Vec<Vec<Vec<ValueRef>>>,
    /// Per layer, the value vector of every position seen so far.
    pub values: Vec<Vec<Vec<ValueRef>>>,
}

impl Model {
    /// A model with the given sizes, parameters and caches; the head width is
    /// `n_embd / n_head`.
    pub fn new(
        n_layer: usize,
        n_head: usize,
        n_embd: usize,
        parameters: Parameters,
        keys: Vec<Vec<Vec<ValueRef>>>,
        values: Vec<Vec<Vec<ValueRef>>>,
    ) -> (m: Self)
        requires
            n_head > 0,
        ensures
            m.n_layer == n_layer,
            m.n_head == n_head,
            m.n_embd == n_embd,
            m.head_dim == n_embd / n_head,
            m.parameters == parameters,
            m.keys == keys,
            m.values == values,
    {
        Model { n_layer, n_head, n_embd, head_dim: n_embd / n_head, parameters, keys, values }
    }

    /// Empties the caches, leaving one empty cache (that of the first layer) in each.
    pub fn reset_cache(&mut self)
        ensures
            cache_view(final(self).keys) == seq![Seq::<Seq<ValueRef>>::empty()],
            cache_view(final(self).values) == seq![Seq::<Seq<ValueRef>>::empty()],
            caches_shaped(final(self)),
            final(self).n_layer == old(self).n_layer,
            final(self).n_head == old(self).n_head,
            final(self).n_embd == old(self).n_embd,
            final(self).head_dim == old(self).head_dim,
            final(self).parameters == old(self).parameters,
    {
        self.keys.clear();
        self.keys.push(Vec::new());
        self.values.clear();
        self.values.push(Vec::new());
        assert(cache_view(self.keys)[0] =~= Seq::<Seq<ValueRef>>::empty());
        assert(cache_view(self.keys) =~= seq![Seq::<Seq<ValueRef>>::empty()]);
        assert(cache_view(self.values)[0] =~= Seq::<Seq<ValueRef>>::empty());
        assert(cache_view(self.values) =~= seq![Seq::<Seq<ValueRef>>::empty()]);
    }

    /// Appends the key `k` and the value `v` of a new position to the caches of layer `li`.
    pub fn push_kv(&mut self, li: usize, k: Vec<ValueRef>, v: Vec<ValueRef>)
        requires
            li < old(self).keys@.len(),
            li < old(self).values@.len(),
        ensures
            cache_view(final(self).keys) == cache_view(old(self).keys).update(
                li as int,
                cache_view(old(self).keys)[li as int].push(k@),
            ),
            cache_view(final(self).values) == cache_view(old(self).values).update(
                li as int,
                cache_view(old(self).values)[li as int].push(v@),
            ),
            final(self).n_layer == old(self).n_layer,
            final(self).n_head == old(self).n_head,
            final(self).n_embd == old(self).n_embd,
            final(self).head_dim == old(self).head_dim,
            final(self).parameters == old(self).parameters,
    {
        let ghost kv = k@;
        let ghost vv = v@;
        let ghost old_keys = cache_view(self.keys);
        let ghost old_values = cache_view(self.values);
        let mut layer_keys: Vec<Vec<ValueRef>> = Vec::new();
        std::mem::swap(&mut layer_keys, &mut self.keys[li]);
        layer_keys.push(k);
        self.keys.set(li, layer_keys);
        let mut layer_values: Vec<Vec<ValueRef>> = Vec::new();
        std::mem::swap(&mut layer_values, &mut self.values[li]);
        layer_values.push(v);
        self.values.set(li, layer_values);
        proof {
            assert forall|q: int| 0 <= q < self.keys@.len() implies cache_view(self.keys)[q] == old_keys.update(li as int, old_keys[li as int].push(kv))[q] by {
                if q == li {
                    assert(cache_view(self.keys)[q] =~= old_keys[q].push(kv));
                }
            }
            assert(cache_view(self.keys) =~= old_keys.update(li as int, old_keys[li as int].push(kv)));
            assert forall|q: int| 0 <= q < self.values@.len() implies cache_view(self.values)[q] == old_values.update(li as int, old_values[li as int].push(vv))[q] by {
                if q == li {
                    assert(cache_view(self.values)[q] =~= old_values[q].push(vv));
                }
            }
            assert(cache_view(self.values) =~= old_values.update(li as int, old_values[li as int].push(vv)));
        }
    }
}

} // verus!
