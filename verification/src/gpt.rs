use vstd::prelude::*;
use crate::autograd::{self, Graph, NodeView, Term, ValueRef};
use crate::model::{
    self, attention_logits, embed, head_output, layer_output, layer_qkv, linear, softmax, Model,
};
use crate::parameters::{self, LayerMatrix, ParamKey};

verus! {

/// Where a forward pass stands.
#[derive(Clone, Copy, Debug, PartialEq, Eq, Structural)]
pub enum GptPhase {
    /// About to start layer `layer` (or, past the last layer, the output head).
    BeginLayer,
    /// About to build the attention logits of head `head` of layer `layer` (or, past
    /// the last head, the layer's output).
    Head,
    /// Waiting for the position of the largest of `logits`.
    AwaitArgmax,
    /// The pass has given its output.
    Finished,
}

/// What the pass asks of its caller.
pub enum GptAction {
    /// Call `step` again.
    Continue,
    /// Evaluate `logits`, and call `resume` with the position of the largest.
    Argmax,
    /// The logits of the next token.
    Done(Vec<ValueRef>),
    /// The parameters or caches do not fit the pass (a missing matrix, a missing cache,
    /// a slice out of range): the pass cannot go on.
    Fail,
}

/// One forward pass of the model for one token at one position, taken a step at a
/// time: the caller evaluates the attention logits of each head and names their
/// largest, which decides how the softmax is shifted.
pub struct GptPass {
    pub phase: GptPhase,
    /// The current layer.
    pub layer: usize,
    /// The current head.
    pub head: usize,
    /// The input of the current layer (its residual).
    pub x: Vec<ValueRef>,
    /// The query of the current layer.
    pub q: Vec<ValueRef>,
    /// The outputs of the heads done so far, one after the other.
    pub x_attn: Vec<ValueRef>,
    /// The attention logits of the current head.
    pub logits: Vec<ValueRef>,
}

/// What the nodes of each row of `m` compute.
pub open spec fn mat_terms(g: Seq<NodeView>, m: Seq<Seq<ValueRef>>) -> Seq<Seq<Term>> {
    Seq::new(m.len(), |r: int| model::terms_of(g, m[r]))
}

/// Every row of `m` names nodes of `g`.
pub open spec fn valid_mat(g: Seq<NodeView>, m: Seq<Seq<ValueRef>>) -> bool {
    forall|r: int| 0 <= r < m.len() ==> model::valid_refs(g, #[trigger] m[r])
}

/// Every parameter and every cached key and value of `m` names a node of `g`.
pub open spec fn model_valid(g: Seq<NodeView>, m: &Model) -> bool {
    &&& forall|p: int|
        0 <= p < m.parameters.state_dict@.len() ==> valid_mat(g, #[trigger] m.parameters.state_dict@[p].1)
    &&& forall|li: int| 0 <= li < m.keys@.len() ==> valid_mat(g, #[trigger] model::cache_view(m.keys)[li])
    &&& forall|li: int| 0 <= li < m.values@.len() ==> valid_mat(g, #[trigger] model::cache_view(m.values)[li])
}

/// Every vector the pass holds names nodes of `g`.
pub open spec fn pass_valid(g: Seq<NodeView>, s: &GptPass) -> bool {
    &&& model::valid_refs(g, s.x@)
    &&& model::valid_refs(g, s.q@)
    &&& model::valid_refs(g, s.x_attn@)
    &&& model::valid_refs(g, s.logits@)
}

/// The matrix stored under `key`.
pub open spec fn stored(m: &Model, key: ParamKey) -> Option<Seq<Seq<ValueRef>>> {
    parameters::lookup(m.parameters.state_dict@, key)
}

/// Where the slice of head `head` starts.
pub open spec fn head_start(m: &Model, head: usize) -> int {
    head * m.head_dim
}

/// Head `head` reads the slice `head * head_dim .. (head + 1) * head_dim` of the query
/// and of every cached key and value: the slices of the heads follow one another, so
/// that two distinct heads read disjoint slices.
pub proof fn lemma_head_slices(m: &Model, head: usize, other: usize)
    ensures
        head_start(m, head) == head * m.head_dim,
        head_start(m, head) + m.head_dim == (head + 1) * m.head_dim,
        head < other ==> head_start(m, head) + m.head_dim <= head_start(m, other),
{
    let (h, o, d) = (head as int, other as int, m.head_dim as int);
    assert((h + 1) * d == h * d + d) by (nonlinear_arith);
    assert(h < o ==> h * d + d <= o * d) by (nonlinear_arith)
        requires
            0 <= d,
    ;
}

/// What the pass relies on between its steps: in a head phase the layer's caches exist;
/// while it awaits the largest logit, the head's slice lies within every cached value.
pub open spec fn pass_fits(s: &GptPass, m: &Model) -> bool {
    &&& (s.phase == GptPhase::Head || s.phase == GptPhase::AwaitArgmax) ==> s.layer < m.keys@.len()
        && s.layer < m.values@.len()
    &&& s.phase == GptPhase::Head ==> s.head <= m.n_head
    &&& s.phase == GptPhase::AwaitArgmax ==> {
        &&& s.head < m.n_head
        &&& head_start(m, s.head) + m.head_dim <= usize::MAX
        &&& model::all_longer(m.values@[s.layer as int]@, head_start(m, s.head) + m.head_dim)
    }
}

/// The embedding rows for `token_id` and `pos_id` exist.
pub open spec fn start_ok(m: &Model, token_id: usize, pos_id: usize) -> bool {
    &&& stored(m, ParamKey::Wte) is Some
    &&& token_id < stored(m, ParamKey::Wte).unwrap().len()
    &&& stored(m, ParamKey::Wpe) is Some
    &&& pos_id < stored(m, ParamKey::Wpe).unwrap().len()
}

/// The matrix of `which` of layer `li`.
pub open spec fn layer_matrix(m: &Model, li: usize, which: LayerMatrix) -> Option<Seq<Seq<ValueRef>>> {
    stored(m, ParamKey::Layer(li, which))
}

/// Layer `li` can start: its query, key and value matrices and its caches exist.
pub open spec fn layer_start_ok(m: &Model, li: usize) -> bool {
    &&& layer_matrix(m, li, LayerMatrix::AttnWq) is Some
    &&& layer_matrix(m, li, LayerMatrix::AttnWk) is Some
    &&& layer_matrix(m, li, LayerMatrix::AttnWv) is Some
    &&& li < m.keys@.len()
    &&& li < m.values@.len()
}

/// Layer `li` can end: its output and perceptron matrices exist.
pub open spec fn layer_end_ok(m: &Model, li: usize) -> bool {
    &&& layer_matrix(m, li, LayerMatrix::AttnWo) is Some
    &&& layer_matrix(m, li, LayerMatrix::MlpFc1) is Some
    &&& layer_matrix(m, li, LayerMatrix::MlpFc2) is Some
}

/// Head `head` of layer `li` can be sliced out of the query and every cached key and value.
pub open spec fn head_ok(s: &GptPass, m: &Model) -> bool {
    &&& head_start(m, s.head) + m.head_dim <= usize::MAX
    &&& head_start(m, s.head) + m.head_dim <= s.q@.len()
    &&& model::all_longer(m.keys@[s.layer as int]@, head_start(m, s.head) + m.head_dim)
    &&& model::all_longer(m.values@[s.layer as int]@, head_start(m, s.head) + m.head_dim)
}

/// The parameters of `m` have the layout and the shapes that `Parameters::new` gives
/// them for `vocab_size` tokens and `block_size` positions.
pub open spec fn laid_out(m: &Model, vocab_size: nat, block_size: nat) -> bool {
    let entries = m.parameters.state_dict@;
    &&& parameters::keys_of(entries) == parameters::layout(m.parameters.n_layer as nat)
    &&& forall|q: int|
        0 <= q < entries.len() ==> #[trigger] parameters::is_matrix(
            entries[q].1,
            parameters::shape(entries[q].0, vocab_size, m.parameters.n_embd as nat, block_size).0,
            parameters::shape(entries[q].0, vocab_size, m.parameters.n_embd as nat, block_size).1,
        )
}

/// A matrix's rows, as the matrix functions see them, compute what `mat_terms` says.
pub proof fn lemma_rows_mat(g: Seq<NodeView>, w: Vec<Vec<ValueRef>>)
    requires
        valid_mat(g, parameters::matrix_view(w)),
    ensures
        model::valid_rows(g, w@),
        model::rows_terms(g, w@) == mat_terms(g, parameters::matrix_view(w)),
{
    assert forall|r: int| 0 <= r < w@.len() implies model::valid_refs(g, #[trigger] w@[r]@) by {
        assert(parameters::matrix_view(w)[r] == w@[r]@);
    }
    assert(model::rows_terms(g, w@) =~= mat_terms(g, parameters::matrix_view(w)));
}

/// A stored matrix names nodes of the graph.
pub proof fn lemma_stored_valid(g: Seq<NodeView>, m: &Model, key: ParamKey)
    requires
        model_valid(g, m),
    ensures
        stored(m, key) matches Some(w) ==> valid_mat(g, w),
{
    parameters::lemma_lookup_entry(m.parameters.state_dict@, key);
    if stored(m, key) is Some {
        let w = stored(m, key).unwrap();
        let p = choose|p: int|
            0 <= p < m.parameters.state_dict@.len() && #[trigger] m.parameters.state_dict@[p] == (key, w);
        assert(valid_mat(g, m.parameters.state_dict@[p].1));
    }
}

/// Growing the graph keeps a matrix's nodes valid and what they compute.
pub proof fn lemma_mat_stable(old: Seq<NodeView>, new: Seq<NodeView>, m: Seq<Seq<ValueRef>>)
    requires
        autograd::extends(old, new),
        valid_mat(old, m),
    ensures
        valid_mat(new, m),
        mat_terms(new, m) == mat_terms(old, m),
{
    assert forall|r: int| 0 <= r < m.len() implies model::valid_refs(new, #[trigger] m[r]) && model::terms_of(new, m[r])
        == model::terms_of(old, m[r]) by {
        model::lemma_refs_stable(old, new, m[r]);
    }
    assert(mat_terms(new, m) =~= mat_terms(old, m));
}

/// The cache of layer `li` is the matrix of its vectors.
pub proof fn lemma_cache_mat(c: Vec<Vec<Vec<ValueRef>>>, li: int)
    requires
        0 <= li < c@.len(),
    ensures
        model::cache_view(c)[li] == parameters::matrix_view(c@[li]),
{
}

/// Growing the graph keeps a model's nodes valid.
pub proof fn lemma_model_valid_stable(old: Seq<NodeView>, new: Seq<NodeView>, m: &Model)
    requires
        autograd::extends(old, new),
        model_valid(old, m),
    ensures
        model_valid(new, m),
{
    assert forall|p: int| 0 <= p < m.parameters.state_dict@.len() implies valid_mat(
        new,
        #[trigger] m.parameters.state_dict@[p].1,
    ) by {
        let mv = m.parameters.state_dict@[p].1;
        assert forall|r: int| 0 <= r < mv.len() implies model::valid_refs(new, #[trigger] mv[r]) by {
            assert(valid_mat(old, mv));
            model::lemma_refs_stable(old, new, mv[r]);
        }
    }
    assert forall|li: int| 0 <= li < m.keys@.len() implies valid_mat(new, #[trigger] model::cache_view(m.keys)[li]) by {
        lemma_mat_stable(old, new, model::cache_view(m.keys)[li]);
    }
    assert forall|li: int| 0 <= li < m.values@.len() implies valid_mat(new, #[trigger] model::cache_view(m.values)[li]) by {
        lemma_mat_stable(old, new, model::cache_view(m.values)[li]);
    }
}

/// Growing the graph keeps the pass's nodes valid.
pub proof fn lemma_pass_valid_stable(old: Seq<NodeView>, new: Seq<NodeView>, s: &GptPass)
    requires
        autograd::extends(old, new),
        pass_valid(old, s),
    ensures
        pass_valid(new, s),
{
    model::lemma_refs_stable(old, new, s.x@);
    model::lemma_refs_stable(old, new, s.q@);
    model::lemma_refs_stable(old, new, s.x_attn@);
    model::lemma_refs_stable(old, new, s.logits@);
}

/// A pass with nothing in it.
fn empty_pass(phase: GptPhase) -> (s: GptPass)
    ensures
        s.phase == phase,
        s.layer == 0,
        s.head == 0,
        s.x@.len() == 0,
        s.q@.len() == 0,
        s.x_attn@.len() == 0,
        s.logits@.len() == 0,
{
    GptPass { phase, layer: 0, head: 0, x: Vec::new(), q: Vec::new(), x_attn: Vec::new(), logits: Vec::new() }
}

/// Every row of `rows` has at least `n` entries.
fn all_at_least(rows: &Vec<Vec<ValueRef>>, n: usize) -> (b: bool)
    ensures
        b == model::all_longer(rows@, n as int),
{
    let mut t: usize = 0;
    while t < rows.len()
        invariant
            t <= rows@.len(),
            forall|q: int| 0 <= q < t ==> n <= #[trigger] rows@[q]@.len(),
        decreases rows@.len() - t,
    {
        if rows[t].len() < n {
            return false;
        }
        t += 1;
    }
    true
}

/// What `step` does past the last layer: the output head turns the layer output into
/// the logits of the next token.
pub open spec fn finish_post(
    g0: Seq<NodeView>,
    g1: Seq<NodeView>,
    s0: GptPass,
    s1: GptPass,
    m0: Model,
    a: GptAction,
) -> bool {
    match stored(&m0, ParamKey::LmHead) {
        None => a is Fail,
        Some(w) => {
            &&& a is Done
            &&& model::terms_are(
                g1,
                a->Done_0@,
                model::linear_spec(model::terms_of(g0, s0.x@), mat_terms(g0, w)),
            )
            &&& s1.phase == GptPhase::Finished
        },
    }
}

/// What `step` does at the start of a layer: the layer's query, key and value from its
/// input, with the key and the value appended to the layer's caches.
pub open spec fn begin_layer_post(
    g0: Seq<NodeView>,
    g1: Seq<NodeView>,
    s0: GptPass,
    s1: GptPass,
    m0: Model,
    m1: Model,
    a: GptAction,
) -> bool {
    let li = s0.layer;
    let x = model::terms_of(g0, s0.x@);
    if layer_start_ok(&m0, li) {
        let k0 = model::cache_view(m0.keys);
        let k1 = model::cache_view(m1.keys);
        let v0 = model::cache_view(m0.values);
        let v1 = model::cache_view(m1.values);
        &&& a is Continue
        &&& s1.phase == GptPhase::Head
        &&& s1.layer == li
        &&& s1.head == 0
        &&& s1.x == s0.x
        &&& s1.x_attn@.len() == 0
        &&& model::terms_of(g1, s1.q@) == model::qkv_spec(
            x,
            mat_terms(g0, layer_matrix(&m0, li, LayerMatrix::AttnWq).unwrap()),
        )
        &&& k1 == k0.update(li as int, k0[li as int].push(k1[li as int].last()))
        &&& model::terms_of(g1, k1[li as int].last()) == model::qkv_spec(
            x,
            mat_terms(g0, layer_matrix(&m0, li, LayerMatrix::AttnWk).unwrap()),
        )
        &&& v1 == v0.update(li as int, v0[li as int].push(v1[li as int].last()))
        &&& model::terms_of(g1, v1[li as int].last()) == model::qkv_spec(
            x,
            mat_terms(g0, layer_matrix(&m0, li, LayerMatrix::AttnWv).unwrap()),
        )
    } else {
        a is Fail
    }
}

/// What `step` does at a head: its attention logits against every cached key; and after
/// the last head, the layer's output from the heads' outputs and the layer's input.
pub open spec fn head_post(
    g0: Seq<NodeView>,
    g1: Seq<NodeView>,
    s0: GptPass,
    s1: GptPass,
    m0: Model,
    a: GptAction,
) -> bool {
    let li = s0.layer;
    if s0.head < m0.n_head {
        if head_ok(&s0, &m0) {
            &&& a is Argmax
            &&& s1.phase == GptPhase::AwaitArgmax
            &&& s1.layer == li
            &&& s1.head == s0.head
            &&& s1.x == s0.x
            &&& s1.q == s0.q
            &&& s1.x_attn == s0.x_attn
            &&& model::terms_of(g1, s1.logits@) == model::attn_logits_spec(
                model::terms_of(g0, s0.q@),
                model::rows_terms(g0, m0.keys@[li as int]@),
                s0.head * m0.head_dim,
                m0.head_dim as int,
            )
        } else {
            a is Fail
        }
    } else if layer_end_ok(&m0, li) {
        &&& a is Continue
        &&& s1.phase == GptPhase::BeginLayer
        &&& s1.layer == li + 1
        &&& model::terms_of(g1, s1.x@) == model::layer_output_spec(
            model::terms_of(g0, s0.x_attn@),
            model::terms_of(g0, s0.x@),
            mat_terms(g0, layer_matrix(&m0, li, LayerMatrix::AttnWo).unwrap()),
            mat_terms(g0, layer_matrix(&m0, li, LayerMatrix::MlpFc1).unwrap()),
            mat_terms(g0, layer_matrix(&m0, li, LayerMatrix::MlpFc2).unwrap()),
        )
    } else {
        a is Fail
    }
}

/// Layer `li` of `m` has its six matrices, those of the query, key and value with a
/// row per embedding entry.
pub open spec fn layer_ready(m: &Model, li: usize) -> bool {
    &&& layer_matrix(m, li, LayerMatrix::AttnWq) matches Some(w) && w.len() == m.n_embd
    &&& layer_matrix(m, li, LayerMatrix::AttnWk) matches Some(w) && w.len() == m.n_embd
    &&& layer_matrix(m, li, LayerMatrix::AttnWv) matches Some(w) && w.len() == m.n_embd
    &&& layer_end_ok(m, li)
}

/// `m` can run passes: the output head and the matrices of every layer exist, there is
/// a cache for every layer, the heads fit side by side in the embedding, and the caches
/// are shaped.
pub open spec fn model_ready(m: &Model) -> bool {
    &&& stored(m, ParamKey::LmHead) is Some
    &&& forall|li: usize| li < m.n_layer ==> #[trigger] layer_ready(m, li)
    &&& m.n_layer <= m.keys@.len()
    &&& m.n_head * m.head_dim <= m.n_embd
    &&& model::caches_shaped(m)
}

/// The pass over a ready model stands where it can go on: within the layers, with a
/// query of `n_embd` entries in a head phase, and, while it awaits the largest logit,
/// with a logit per cached key.
pub open spec fn pass_ready(s: &GptPass, m: &Model) -> bool {
    &&& model_ready(m)
    &&& s.phase == GptPhase::BeginLayer ==> s.layer <= m.n_layer
    &&& (s.phase == GptPhase::Head || s.phase == GptPhase::AwaitArgmax) ==> {
        &&& s.layer < m.n_layer
        &&& s.q@.len() == m.n_embd
    }
    &&& s.phase == GptPhase::AwaitArgmax ==> s.logits@.len() == m.keys@[s.layer as int]@.len()
}

/// A model whose parameters `Parameters::new` laid out for `vocab_size` tokens and
/// `block_size` positions, made with the same sizes and the head width
/// `n_embd / n_head`, with shaped caches and one for every layer (as `reset_cache`
/// leaves them for one layer), is ready, and every token and position in range can
/// start a pass: from there on the pass never fails (see `start`, `step` and `resume`).
pub proof fn lemma_laid_out_model_ready(m: &Model, vocab_size: nat, block_size: nat)
    requires
        laid_out(m, vocab_size, block_size),
        m.n_layer == m.parameters.n_layer,
        m.n_embd == m.parameters.n_embd,
        m.n_head > 0,
        m.head_dim == m.n_embd / m.n_head,
        m.n_layer <= m.keys@.len(),
        model::caches_shaped(m),
    ensures
        model_ready(m),
        forall|token_id: usize, pos_id: usize|
            token_id < vocab_size && pos_id < block_size ==> #[trigger] start_ok(m, token_id, pos_id),
{
    let entries = m.parameters.state_dict@;
    let (e, n) = (m.parameters.n_embd as nat, m.parameters.n_layer as nat);
    parameters::lemma_layout_holds_every_matrix(entries, vocab_size, e, block_size, n, ParamKey::LmHead);
    assert forall|li: usize| li < m.n_layer implies #[trigger] layer_ready(m, li) by {
        parameters::lemma_layout_holds_every_matrix(entries, vocab_size, e, block_size, n, ParamKey::Layer(li, LayerMatrix::AttnWq));
        parameters::lemma_layout_holds_every_matrix(entries, vocab_size, e, block_size, n, ParamKey::Layer(li, LayerMatrix::AttnWk));
        parameters::lemma_layout_holds_every_matrix(entries, vocab_size, e, block_size, n, ParamKey::Layer(li, LayerMatrix::AttnWv));
        parameters::lemma_layout_holds_every_matrix(entries, vocab_size, e, block_size, n, ParamKey::Layer(li, LayerMatrix::AttnWo));
        parameters::lemma_layout_holds_every_matrix(entries, vocab_size, e, block_size, n, ParamKey::Layer(li, LayerMatrix::MlpFc1));
        parameters::lemma_layout_holds_every_matrix(entries, vocab_size, e, block_size, n, ParamKey::Layer(li, LayerMatrix::MlpFc2));
    }
    let (h, w) = (m.n_head as int, m.head_dim as int);
    vstd::arithmetic::div_mod::lemma_fundamental_div_mod(m.n_embd as int, h);
    assert(h * w <= m.n_embd) by (nonlinear_arith)
        requires
            m.n_embd as int == h * w + (m.n_embd as int) % h,
            (m.n_embd as int) % h >= 0,
    ;
    assert forall|token_id: usize, pos_id: usize|
        token_id < vocab_size && pos_id < block_size implies #[trigger] start_ok(m, token_id, pos_id) by {
        parameters::lemma_layout_holds_every_matrix(entries, vocab_size, e, block_size, n, ParamKey::Wte);
        parameters::lemma_layout_holds_every_matrix(entries, vocab_size, e, block_size, n, ParamKey::Wpe);
    }
}

/// A model whose parameters a graph grew by (as `Parameters::new` grows it) and whose
/// caches are empty names only nodes of that graph, as a pass asks.
pub proof fn lemma_fresh_model_valid(old: Seq<NodeView>, new: Seq<NodeView>, m: &Model)
    requires
        parameters::fresh_inputs(old, new, parameters::flatten_entries(m.parameters.state_dict@)),
        forall|li: int| 0 <= li < m.keys@.len() ==> (#[trigger] model::cache_view(m.keys)[li]).len() == 0,
        forall|li: int| 0 <= li < m.values@.len() ==> (#[trigger] model::cache_view(m.values)[li]).len() == 0,
    ensures
        model_valid(new, m),
{
    let entries = m.parameters.state_dict@;
    parameters::lemma_fresh_entries_in_graph(old, new, entries);
    assert forall|p: int| 0 <= p < entries.len() implies valid_mat(new, #[trigger] entries[p].1) by {
        assert forall|r: int| 0 <= r < entries[p].1.len() implies model::valid_refs(new, #[trigger] entries[p].1[r]) by {
            assert forall|c: int| 0 <= c < entries[p].1[r].len() implies (#[trigger] entries[p].1[r][c]).index < new.len() by {}
        }
    }
    assert forall|li: int| 0 <= li < m.keys@.len() implies valid_mat(new, #[trigger] model::cache_view(m.keys)[li]) by {
        assert(model::cache_view(m.keys)[li].len() == m.keys@[li]@.len());
    }
    assert forall|li: int| 0 <= li < m.values@.len() implies valid_mat(new, #[trigger] model::cache_view(m.values)[li]) by {
        assert(model::cache_view(m.values)[li].len() == m.values@[li]@.len());
    }
}

/// A step from a ready pass does not fail, and leaves the pass ready.
proof fn lemma_step_keeps_ready(
    g0: Seq<NodeView>,
    g1: Seq<NodeView>,
    s0: GptPass,
    s1: GptPass,
    m0: Model,
    m1: Model,
    a: GptAction,
)
    requires
        s0.phase == GptPhase::BeginLayer || s0.phase == GptPhase::Head,
        pass_fits(&s0, &m0),
        pass_ready(&s0, &m0),
        m1.n_layer == m0.n_layer,
        m1.n_head == m0.n_head,
        m1.n_embd == m0.n_embd,
        m1.head_dim == m0.head_dim,
        m1.parameters == m0.parameters,
        s0.phase == GptPhase::BeginLayer && s0.layer >= m0.n_layer ==> finish_post(g0, g1, s0, s1, m0, a)
            && m1 == m0,
        s0.phase == GptPhase::BeginLayer && s0.layer < m0.n_layer ==> begin_layer_post(g0, g1, s0, s1, m0, m1, a),
        s0.phase == GptPhase::Head ==> head_post(g0, g1, s0, s1, m0, a) && m1 == m0,
    ensures
        !(a is Fail),
        pass_ready(&s1, &m1),
{
    let li = s0.layer;
    assert(model::caches_shaped(&m0));
    if s0.phase == GptPhase::BeginLayer && li < m0.n_layer {
        assert(layer_ready(&m0, li));
        assert(layer_start_ok(&m0, li));
        let k0 = model::cache_view(m0.keys);
        let k1 = model::cache_view(m1.keys);
        let v0 = model::cache_view(m0.values);
        let v1 = model::cache_view(m1.values);
        assert(forall|l: usize| l < m1.n_layer ==> #[trigger] layer_ready(&m1, l) == layer_ready(&m0, l));
        assert(k1.len() == k0.len());
        assert(v1.len() == v0.len());
        assert(k1[li as int].len() == v1[li as int].len());
        assert forall|l: int| 0 <= l < k1.len() implies (#[trigger] k1[l]).len() == v1[l].len() by {
            if l != li {
                assert(k1[l] == k0[l]);
                assert(v1[l] == v0[l]);
            }
        }
        assert forall|l: int, t: int| 0 <= l < k1.len() && 0 <= t < k1[l].len() implies (#[trigger] k1[l][t]).len()
            == m1.n_embd by {
            if l != li || t < k0[l].len() {
                assert(k1[l][t] == k0[l][t]);
                assert(k0[l][t].len() == m0.n_embd);
            } else {
                assert(k1[l][t] == k1[li as int].last());
                let w = layer_matrix(&m0, li, LayerMatrix::AttnWk).unwrap();
                assert(model::terms_of(g1, k1[li as int].last()).len() == k1[li as int].last().len());
                assert(mat_terms(g0, w).len() == w.len());
            }
        }
        assert forall|l: int, t: int| 0 <= l < v1.len() && 0 <= t < v1[l].len() implies (#[trigger] v1[l][t]).len()
            == m1.n_embd by {
            if l != li || t < v0[l].len() {
                assert(v1[l][t] == v0[l][t]);
                assert(v0[l][t].len() == m0.n_embd);
            } else {
                assert(v1[l][t] == v1[li as int].last());
                let w = layer_matrix(&m0, li, LayerMatrix::AttnWv).unwrap();
                assert(model::terms_of(g1, v1[li as int].last()).len() == v1[li as int].last().len());
                assert(mat_terms(g0, w).len() == w.len());
            }
        }
        assert(m1.keys@.len() == k1.len());
        let wq = layer_matrix(&m0, li, LayerMatrix::AttnWq).unwrap();
        assert(model::terms_of(g1, s1.q@).len() == s1.q@.len());
        assert(mat_terms(g0, wq).len() == wq.len());
        assert(model::caches_shaped(&m1));
        assert(model_ready(&m1));
    } else if s0.phase == GptPhase::Head && s0.head < m0.n_head {
        let (h, hd, n) = (s0.head as int, m0.head_dim as int, m0.n_head as int);
        assert((h + 1) * hd <= n * hd) by (nonlinear_arith)
            requires
                h + 1 <= n,
                0 <= hd,
        ;
        assert(h * hd + hd == (h + 1) * hd) by (nonlinear_arith);
        let ks = model::cache_view(m0.keys)[li as int];
        let vs = model::cache_view(m0.values)[li as int];
        assert(m0.keys@[li as int]@.len() == ks.len());
        assert forall|t: int| 0 <= t < m0.keys@[li as int]@.len() implies head_start(&m0, s0.head) + m0.head_dim
            <= (#[trigger] m0.keys@[li as int]@[t])@.len() by {
            assert(ks[t] == m0.keys@[li as int]@[t]@);
        }
        assert forall|t: int| 0 <= t < m0.values@[li as int]@.len() implies head_start(&m0, s0.head) + m0.head_dim
            <= (#[trigger] m0.values@[li as int]@[t])@.len() by {
            assert(vs[t] == m0.values@[li as int]@[t]@);
        }
        assert(head_ok(&s0, &m0));
        assert(model::terms_of(g1, s1.logits@).len() == s1.logits@.len());
        assert(s1.logits@.len() == m0.keys@[li as int]@.len());
    } else if s0.phase == GptPhase::Head {
        assert(layer_ready(&m0, li));
    } else {
        assert(stored(&m0, ParamKey::LmHead) is Some);
    }
}

impl GptPass {
    /// Starts the pass for `token_id` at `pos_id`: the token's embedding row plus the
    /// position's, normalized, is the input of the first layer.
    pub fn start(graph: &mut Graph, model: &Model, token_id: usize, pos_id: usize) -> (r: (GptPass, GptAction))
        requires
            autograd::well_formed(old(graph)@),
            model_valid(old(graph)@, model),
        ensures
            autograd::well_formed(final(graph)@),
            autograd::extends(old(graph)@, final(graph)@),
            model_valid(final(graph)@, model),
            pass_valid(final(graph)@, &r.0),
            pass_fits(&r.0, model),
            !start_ok(model, token_id, pos_id) ==> r.1 is Fail,
            model_ready(model) && start_ok(model, token_id, pos_id) ==> pass_ready(&r.0, model),
            start_ok(model, token_id, pos_id) ==> {
                &&& r.1 is Continue
                &&& r.0.phase == GptPhase::BeginLayer
                &&& r.0.layer == 0
                &&& model::terms_of(final(graph)@, r.0.x@) == model::embed_spec(
                    mat_terms(old(graph)@, stored(model, ParamKey::Wte).unwrap())[token_id as int],
                    mat_terms(old(graph)@, stored(model, ParamKey::Wpe).unwrap())[pos_id as int],
                )
            },
    {
        let ghost g0 = graph@;
        proof {
            assert(g0.take(g0.len() as int) =~= g0);
        }
        let wte = match model.parameters.state_dict.get(ParamKey::Wte) {
            Some(m) => m,
            None => {
                return (empty_pass(GptPhase::Finished), GptAction::Fail);
            },
        };
        let wpe = match model.parameters.state_dict.get(ParamKey::Wpe) {
            Some(m) => m,
            None => {
                return (empty_pass(GptPhase::Finished), GptAction::Fail);
            },
        };
        if token_id >= wte.len() || pos_id >= wpe.len() {
            return (empty_pass(GptPhase::Finished), GptAction::Fail);
        }
        proof {
            lemma_stored_valid(g0, model, ParamKey::Wte);
            lemma_stored_valid(g0, model, ParamKey::Wpe);
            lemma_rows_mat(g0, *wte);
            lemma_rows_mat(g0, *wpe);
        }
        let x = embed(graph, wte, wpe, token_id, pos_id);
        proof {
            model::lemma_terms_are_terms_of(graph@, x@, model::embed_spec(
                model::rows_terms(g0, wte@)[token_id as int],
                model::rows_terms(g0, wpe@)[pos_id as int],
            ));
            lemma_model_valid_stable(g0, graph@, model);
        }
        let mut s = empty_pass(GptPhase::BeginLayer);
        s.x = x;
        (s, GptAction::Continue)
    }

    /// Takes the next step of the pass that needs no outside value: at the start of a
    /// layer, the layer's query, key and value (the key and value join the caches); at a
    /// head, its attention logits; after the last head, the layer's output; after the
    /// last layer, the output head.
    pub fn step(&mut self, graph: &mut Graph, model: &mut Model) -> (a: GptAction)
        requires
            old(self).phase == GptPhase::BeginLayer || old(self).phase == GptPhase::Head,
            autograd::well_formed(old(graph)@),
            model_valid(old(graph)@, old(model)),
            pass_valid(old(graph)@, old(self)),
            pass_fits(old(self), old(model)),
        ensures
            autograd::well_formed(final(graph)@),
            autograd::extends(old(graph)@, final(graph)@),
            model_valid(final(graph)@, final(model)),
            pass_valid(final(graph)@, final(self)),
            pass_fits(final(self), final(model)),
            final(model).n_layer == old(model).n_layer,
            final(model).n_head == old(model).n_head,
            final(model).n_embd == old(model).n_embd,
            final(model).head_dim == old(model).head_dim,
            final(model).parameters == old(model).parameters,
            old(self).phase == GptPhase::BeginLayer && old(self).layer >= old(model).n_layer ==> finish_post(
                old(graph)@,
                final(graph)@,
                *old(self),
                *final(self),
                *old(model),
                a,
            ) && *final(model) == *old(model),
            old(self).phase == GptPhase::BeginLayer && old(self).layer < old(model).n_layer ==> begin_layer_post(
                old(graph)@,
                final(graph)@,
                *old(self),
                *final(self),
                *old(model),
                *final(model),
                a,
            ),
            old(self).phase == GptPhase::Head ==> head_post(
                old(graph)@,
                final(graph)@,
                *old(self),
                *final(self),
                *old(model),
                a,
            ) && *final(model) == *old(model),
            pass_ready(old(self), old(model)) ==> !(a is Fail) && pass_ready(final(self), final(model)),
    {
        let ghost (g0, s0, m0) = (graph@, *self, *model);
        let a = if self.phase == GptPhase::BeginLayer {
            if self.layer >= model.n_layer {
                self.finish(graph, model)
            } else {
                self.begin_layer(graph, model)
            }
        } else {
            self.head_step(graph, model)
        };
        proof {
            if pass_ready(&s0, &m0) {
                lemma_step_keeps_ready(g0, graph@, s0, *self, m0, *model, a);
            }
        }
        a
    }

    /// The output head.
    fn finish(&mut self, graph: &mut Graph, model: &Model) -> (a: GptAction)
        requires
            autograd::well_formed(old(graph)@),
            model_valid(old(graph)@, model),
            pass_valid(old(graph)@, old(self)),
        ensures
            autograd::well_formed(final(graph)@),
            autograd::extends(old(graph)@, final(graph)@),
            model_valid(final(graph)@, model),
            pass_valid(final(graph)@, final(self)),
            final(self).phase == GptPhase::Finished,
            finish_post(old(graph)@, final(graph)@, *old(self), *final(self), *model, a),
    {
        let ghost g0 = graph@;
        proof {
            assert(g0.take(g0.len() as int) =~= g0);
        }
        self.phase = GptPhase::Finished;
        match model.parameters.state_dict.get(ParamKey::LmHead) {
            None => GptAction::Fail,
            Some(w) => {
                proof {
                    lemma_stored_valid(g0, model, ParamKey::LmHead);
                    lemma_rows_mat(g0, *w);
                }
                let out = linear(graph, &self.x, w);
                proof {
                    lemma_model_valid_stable(g0, graph@, model);
                    lemma_pass_valid_stable(g0, graph@, self);
                }
                GptAction::Done(out)
            },
        }
    }

    /// The start of a layer.
    fn begin_layer(&mut self, graph: &mut Graph, model: &mut Model) -> (a: GptAction)
        requires
            old(self).phase == GptPhase::BeginLayer,
            autograd::well_formed(old(graph)@),
            model_valid(old(graph)@, old(model)),
            pass_valid(old(graph)@, old(self)),
        ensures
            autograd::well_formed(final(graph)@),
            autograd::extends(old(graph)@, final(graph)@),
            model_valid(final(graph)@, final(model)),
            pass_valid(final(graph)@, final(self)),
            pass_fits(final(self), final(model)),
            final(model).n_layer == old(model).n_layer,
            final(model).n_head == old(model).n_head,
            final(model).n_embd == old(model).n_embd,
            final(model).head_dim == old(model).head_dim,
            final(model).parameters == old(model).parameters,
            begin_layer_post(old(graph)@, final(graph)@, *old(self), *final(self), *old(model), *final(model), a),
    {
        let ghost g0 = graph@;
        let ghost s0 = *self;
        let ghost m0 = *model;
        proof {
            assert(g0.take(g0.len() as int) =~= g0);
        }
        let li = self.layer;
        let wq = match model.parameters.state_dict.get(ParamKey::Layer(li, LayerMatrix::AttnWq)) {
            Some(m) => m,
            None => {
                self.phase = GptPhase::Finished;
                return GptAction::Fail;
            },
        };
        let wk = match model.parameters.state_dict.get(ParamKey::Layer(li, LayerMatrix::AttnWk)) {
            Some(m) => m,
            None => {
                self.phase = GptPhase::Finished;
                return GptAction::Fail;
            },
        };
        let wv = match model.parameters.state_dict.get(ParamKey::Layer(li, LayerMatrix::AttnWv)) {
            Some(m) => m,
            None => {
                self.phase = GptPhase::Finished;
                return GptAction::Fail;
            },
        };
        if li >= model.keys.len() || li >= model.values.len() {
            self.phase = GptPhase::Finished;
            return GptAction::Fail;
        }
        proof {
            lemma_stored_valid(g0, &m0, ParamKey::Layer(li, LayerMatrix::AttnWq));
            lemma_stored_valid(g0, &m0, ParamKey::Layer(li, LayerMatrix::AttnWk));
            lemma_stored_valid(g0, &m0, ParamKey::Layer(li, LayerMatrix::AttnWv));
            lemma_rows_mat(g0, *wq);
            lemma_rows_mat(g0, *wk);
            lemma_rows_mat(g0, *wv);
        }
        let (q, k, v) = layer_qkv(graph, &self.x, wq, wk, wv);
        let ghost g1 = graph@;
        let ghost x = model::terms_of(g0, s0.x@);
        proof {
            model::lemma_terms_are_terms_of(g1, q@, model::qkv_spec(x, model::rows_terms(g0, wq@)));
            model::lemma_terms_are_terms_of(g1, k@, model::qkv_spec(x, model::rows_terms(g0, wk@)));
            model::lemma_terms_are_terms_of(g1, v@, model::qkv_spec(x, model::rows_terms(g0, wv@)));
            lemma_model_valid_stable(g0, g1, &m0);
            lemma_pass_valid_stable(g0, g1, &s0);
        }
        let ghost kv = k@;
        let ghost vv = v@;
        model.push_kv(li, k, v);
        proof {
            let k0 = model::cache_view(m0.keys);
            let k1 = model::cache_view(model.keys);
            let v0 = model::cache_view(m0.values);
            let v1 = model::cache_view(model.values);
            assert(k1 == k0.update(li as int, k0[li as int].push(kv)));
            assert(v1 == v0.update(li as int, v0[li as int].push(vv)));
            assert(k1[li as int] == k0[li as int].push(kv));
            assert(v1[li as int] == v0[li as int].push(vv));
            assert(model.keys@.len() == k1.len());
            assert(model.values@.len() == v1.len());
            assert(m0.keys@.len() == k0.len());
            assert(m0.values@.len() == v0.len());
            assert(k1[li as int].last() == kv);
            assert(v1[li as int].last() == vv);
            assert forall|l: int| 0 <= l < model.keys@.len() implies valid_mat(g1, #[trigger] model::cache_view(model.keys)[l]) by {
                if l != li {
                    assert(k1[l] == k0[l]);
                    assert(valid_mat(g1, model::cache_view(m0.keys)[l]));
                } else {
                    assert(valid_mat(g1, k0[l]));
                    assert forall|r: int| 0 <= r < k1[l].len() implies model::valid_refs(g1, #[trigger] k1[l][r]) by {
                        if r < k0[l].len() {
                            assert(k1[l][r] == k0[l][r]);
                        }
                    }
                }
            }
            assert forall|l: int| 0 <= l < model.values@.len() implies valid_mat(g1, #[trigger] model::cache_view(model.values)[l]) by {
                if l != li {
                    assert(v1[l] == v0[l]);
                    assert(valid_mat(g1, model::cache_view(m0.values)[l]));
                } else {
                    assert(valid_mat(g1, v0[l]));
                    assert forall|r: int| 0 <= r < v1[l].len() implies model::valid_refs(g1, #[trigger] v1[l][r]) by {
                        if r < v0[l].len() {
                            assert(v1[l][r] == v0[l][r]);
                        }
                    }
                }
            }
            assert(model.keys@.len() == k1.len());
            assert(model.values@.len() == v1.len());
        }
        self.q = q;
        self.head = 0;
        self.x_attn = Vec::new();
        self.phase = GptPhase::Head;
        GptAction::Continue
    }

    /// One head, or the end of the layer after its last head.
    fn head_step(&mut self, graph: &mut Graph, model: &Model) -> (a: GptAction)
        requires
            old(self).phase == GptPhase::Head,
            autograd::well_formed(old(graph)@),
            model_valid(old(graph)@, model),
            pass_valid(old(graph)@, old(self)),
            pass_fits(old(self), model),
        ensures
            autograd::well_formed(final(graph)@),
            autograd::extends(old(graph)@, final(graph)@),
            model_valid(final(graph)@, model),
            pass_valid(final(graph)@, final(self)),
            pass_fits(final(self), model),
            head_post(old(graph)@, final(graph)@, *old(self), *final(self), *model, a),
    {
        let ghost g0 = graph@;
        let ghost s0 = *self;
        proof {
            assert(g0.take(g0.len() as int) =~= g0);
        }
        let li = self.layer;
        if self.head < model.n_head {
            let hs = match self.head.checked_mul(model.head_dim) {
                Some(h) => h,
                None => {
                    self.phase = GptPhase::Finished;
                    return GptAction::Fail;
                },
            };
            let end = match hs.checked_add(model.head_dim) {
                Some(e) => e,
                None => {
                    self.phase = GptPhase::Finished;
                    return GptAction::Fail;
                },
            };
            let keys = &model.keys[li];
            let values = &model.values[li];
            if end > self.q.len() || !all_at_least(keys, end) || !all_at_least(values, end) {
                self.phase = GptPhase::Finished;
                return GptAction::Fail;
            }
            proof {
                lemma_cache_mat(model.keys, li as int);
                assert(valid_mat(g0, model::cache_view(model.keys)[li as int]));
                lemma_rows_mat(g0, *keys);
            }
            let logits = attention_logits(graph, &self.q, keys, hs, model.head_dim);
            proof {
                model::lemma_terms_are_terms_of(graph@, logits@, model::attn_logits_spec(
                    model::terms_of(g0, s0.q@),
                    model::rows_terms(g0, keys@),
                    hs as int,
                    model.head_dim as int,
                ));
                lemma_model_valid_stable(g0, graph@, model);
                lemma_pass_valid_stable(g0, graph@, &s0);
            }
            self.logits = logits;
            self.phase = GptPhase::AwaitArgmax;
            GptAction::Argmax
        } else {
            let wo = match model.parameters.state_dict.get(ParamKey::Layer(li, LayerMatrix::AttnWo)) {
                Some(m) => m,
                None => {
                    self.phase = GptPhase::Finished;
                    return GptAction::Fail;
                },
            };
            let fc1 = match model.parameters.state_dict.get(ParamKey::Layer(li, LayerMatrix::MlpFc1)) {
                Some(m) => m,
                None => {
                    self.phase = GptPhase::Finished;
                    return GptAction::Fail;
                },
            };
            let fc2 = match model.parameters.state_dict.get(ParamKey::Layer(li, LayerMatrix::MlpFc2)) {
                Some(m) => m,
                None => {
                    self.phase = GptPhase::Finished;
                    return GptAction::Fail;
                },
            };
            proof {
                lemma_stored_valid(g0, model, ParamKey::Layer(li, LayerMatrix::AttnWo));
                lemma_stored_valid(g0, model, ParamKey::Layer(li, LayerMatrix::MlpFc1));
                lemma_stored_valid(g0, model, ParamKey::Layer(li, LayerMatrix::MlpFc2));
                lemma_rows_mat(g0, *wo);
                lemma_rows_mat(g0, *fc1);
                lemma_rows_mat(g0, *fc2);
            }
            let x = layer_output(graph, &self.x_attn, &self.x, wo, fc1, fc2);
            proof {
                model::lemma_terms_are_terms_of(graph@, x@, model::layer_output_spec(
                    model::terms_of(g0, s0.x_attn@),
                    model::terms_of(g0, s0.x@),
                    model::rows_terms(g0, wo@),
                    model::rows_terms(g0, fc1@),
                    model::rows_terms(g0, fc2@),
                ));
                lemma_model_valid_stable(g0, graph@, model);
                lemma_pass_valid_stable(g0, graph@, &s0);
            }
            let n_keys = model.keys.len();
            assert(li < n_keys);
            self.x = x;
            self.layer = li + 1;
            self.head = 0;
            self.phase = GptPhase::BeginLayer;
            GptAction::Continue
        }
    }

    /// Given the position `max_index` of the largest of `logits`: the head's attention
    /// weights are the softmax of its logits shifted by that one, and the head's output,
    /// the weighted sum of the cached values in its slice, joins the outputs so far.
    pub fn resume(&mut self, graph: &mut Graph, model: &Model, max_index: usize) -> (a: GptAction)
        requires
            old(self).phase == GptPhase::AwaitArgmax,
            autograd::well_formed(old(graph)@),
            model_valid(old(graph)@, model),
            pass_valid(old(graph)@, old(self)),
            pass_fits(old(self), model),
        ensures
            autograd::well_formed(final(graph)@),
            autograd::extends(old(graph)@, final(graph)@),
            model_valid(final(graph)@, model),
            pass_valid(final(graph)@, final(self)),
            pass_fits(final(self), model),
            pass_ready(old(self), model) && max_index < old(self).logits@.len() ==> !(a is Fail) && pass_ready(
                final(self),
                model,
            ),
            (max_index >= old(self).logits@.len() || model.values@[old(self).layer as int]@.len()
                > old(self).logits@.len()) ==> a is Fail,
            !(max_index >= old(self).logits@.len() || model.values@[old(self).layer as int]@.len()
                > old(self).logits@.len()) ==> {
                &&& a is Continue
                &&& final(self).phase == GptPhase::Head
                &&& final(self).layer == old(self).layer
                &&& final(self).head == old(self).head + 1
                &&& final(self).x == old(self).x
                &&& final(self).q == old(self).q
                &&& model::terms_of(final(graph)@, final(self).x_attn@) == model::terms_of(old(graph)@, old(self).x_attn@)
                    + model::head_output_spec(
                    model::softmax_spec(model::terms_of(old(graph)@, old(self).logits@), max_index as int),
                    model::rows_terms(old(graph)@, model.values@[old(self).layer as int]@),
                    old(self).head * model.head_dim,
                    model.head_dim as int,
                )
                &&& final(self).x_attn@.len() == old(self).x_attn@.len() + model.head_dim
            },
    {
        let ghost g0 = graph@;
        let ghost s0 = *self;
        proof {
            assert(g0.take(g0.len() as int) =~= g0);
        }
        proof {
            if pass_ready(&s0, model) {
                let li = s0.layer as int;
                assert(model::caches_shaped(model));
                assert(model::cache_view(model.keys)[li].len() == model.keys@[li]@.len());
                assert(model::cache_view(model.values)[li].len() == model.values@[li]@.len());
            }
        }
        let values = &model.values[self.layer];
        if max_index >= self.logits.len() || values.len() > self.logits.len() {
            self.phase = GptPhase::Finished;
            return GptAction::Fail;
        }
        let hs = self.head * model.head_dim;
        let weights = softmax(graph, &self.logits, max_index);
        let ghost g1 = graph@;
        let ghost tw = model::softmax_spec(model::terms_of(g0, s0.logits@), max_index as int);
        proof {
            model::lemma_terms_are_terms_of(g1, weights@, tw);
            lemma_cache_mat(model.values, s0.layer as int);
            assert(valid_mat(g0, model::cache_view(model.values)[s0.layer as int]));
            lemma_rows_mat(g0, *values);
            model::lemma_rows_stable(g0, g1, values@);
        }
        let out = head_output(graph, &weights, values, hs, model.head_dim);
        let ghost g2 = graph@;
        let ghost th = model::head_output_spec(tw, model::rows_terms(g0, values@), hs as int, model.head_dim as int);
        proof {
            model::lemma_terms_are_terms_of(g2, out@, th);
            autograd::lemma_extends_trans(g0, g1, g2);
            model::lemma_refs_stable(g0, g2, s0.x_attn@);
            lemma_pass_valid_stable(g0, g2, &s0);
            lemma_model_valid_stable(g0, g2, model);
        }
        let ghost before = self.x_attn@;
        let mut out_mut = out;
        self.x_attn.append(&mut out_mut);
        proof {
            assert(self.x_attn@ == before + out@);
            assert(model::terms_of(g2, self.x_attn@) =~= model::terms_of(g2, before) + model::terms_of(g2, out@));
            assert forall|k: int| 0 <= k < self.x_attn@.len() implies #[trigger] self.x_attn@[k].index < g2.len() by {
                if k < before.len() {
                    assert(self.x_attn@[k] == before[k]);
                } else {
                    assert(self.x_attn@[k] == out@[k - before.len()]);
                }
            }
        }
        self.head = self.head + 1;
        self.phase = GptPhase::Head;
        GptAction::Continue
    }
}

} // verus!
