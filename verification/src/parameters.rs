use vstd::prelude::*;
use crate::autograd::{self, Graph, NodeView, Op, ValueRef};

verus! {

/// The matrices each transformer layer holds.
#[derive(Clone, Copy, Debug, PartialEq, Eq, Structural)]
pub enum LayerMatrix {
    AttnWq,
    AttnWk,
    AttnWv,
    AttnWo,
    MlpFc1,
    MlpFc2,
}

/// The key of a parameter matrix: the token embedding, the position embedding, the
/// output head, or one matrix of one layer.
#[derive(Clone, Copy, Debug, PartialEq, Eq, Structural)]
pub enum ParamKey {
    Wte,
    Wpe,
    LmHead,
    Layer(usize, LayerMatrix),
}

/// The six keys of layer `i`, in the order they are made.
pub open spec fn layer_keys(i: usize) -> Seq<ParamKey> {
    seq![
        ParamKey::Layer(i, LayerMatrix::AttnWq),
        ParamKey::Layer(i, LayerMatrix::AttnWk),
        ParamKey::Layer(i, LayerMatrix::AttnWv),
        ParamKey::Layer(i, LayerMatrix::AttnWo),
        ParamKey::Layer(i, LayerMatrix::MlpFc1),
        ParamKey::Layer(i, LayerMatrix::MlpFc2),
    ]
}

/// The keys of the first `n` layers, layer by layer.
pub open spec fn layers_layout(n: nat) -> Seq<ParamKey>
    decreases n,
{
    if n == 0 {
        Seq::empty()
    } else {
        layers_layout((n - 1) as nat) + layer_keys((n - 1) as usize)
    }
}

/// Every key of the state dict, in the order the matrices are made.
pub open spec fn layout(n_layer: nat) -> Seq<ParamKey> {
    seq![ParamKey::Wte, ParamKey::Wpe, ParamKey::LmHead] + layers_layout(n_layer)
}

/// The number of rows and columns of the matrix under `key`.
pub open spec fn shape(key: ParamKey, vocab_size: nat, n_embd: nat, block_size: nat) -> (nat, nat) {
    match key {
        ParamKey::Wte => (vocab_size, n_embd),
        ParamKey::Wpe => (block_size, n_embd),
        ParamKey::LmHead => (vocab_size, n_embd),
        ParamKey::Layer(_, LayerMatrix::MlpFc1) => (4 * n_embd, n_embd),
        ParamKey::Layer(_, LayerMatrix::MlpFc2) => (n_embd, 4 * n_embd),
        ParamKey::Layer(_, _) => (n_embd, n_embd),
    }
}

/// `m` has `rows` rows of `cols` entries each.
pub open spec fn is_matrix(m: Seq<Seq<ValueRef>>, rows: nat, cols: nat) -> bool {
    &&& m.len() == rows
    &&& forall|r: int| 0 <= r < m.len() ==> (#[trigger] m[r]).len() == cols
}

/// The entries of `m`, row after row.
pub open spec fn flatten(m: Seq<Seq<ValueRef>>) -> Seq<ValueRef>
    decreases m.len(),
{
    if m.len() == 0 {
        Seq::empty()
    } else {
        flatten(m.drop_last()) + m.last()
    }
}

/// The entries of all matrices of `entries`, matrix after matrix.
pub open spec fn flatten_entries(entries: Seq<(ParamKey, Seq<Seq<ValueRef>>)>) -> Seq<ValueRef>
    decreases entries.len(),
{
    if entries.len() == 0 {
        Seq::empty()
    } else {
        flatten_entries(entries.drop_last()) + flatten(entries.last().1)
    }
}

/// `vs` are the nodes `old` grew by to become `new`, in order: fresh inputs without
/// children.
pub open spec fn fresh_inputs(old: Seq<NodeView>, new: Seq<NodeView>, vs: Seq<ValueRef>) -> bool {
    &&& autograd::extends(old, new)
    &&& new.len() == old.len() + vs.len()
    &&& forall|k: int| 0 <= k < vs.len() ==> (#[trigger] vs[k]).index == old.len() + k
    &&& forall|k: int|
        old.len() <= k < new.len() ==> (#[trigger] new[k]).op == Op::Input && new[k].children.len() == 0
}

/// Growing by `a` then by `b` is growing by `a + b`.
proof fn lemma_fresh_concat(
    g0: Seq<NodeView>,
    g1: Seq<NodeView>,
    g2: Seq<NodeView>,
    a: Seq<ValueRef>,
    b: Seq<ValueRef>,
)
    requires
        fresh_inputs(g0, g1, a),
        fresh_inputs(g1, g2, b),
    ensures
        fresh_inputs(g0, g2, a + b),
{
    autograd::lemma_extends_trans(g0, g1, g2);
    assert forall|k: int| g0.len() <= k < g2.len() implies (#[trigger] g2[k]).op == Op::Input && g2[k].children.len() == 0 by {
        if k < g1.len() {
            assert(g2[k] == g2.take(g1.len() as int)[k]);
        }
    }
}

/// A matrix of fresh input nodes, `nout` rows of `nin`, made row by row.
fn matrix(graph: &mut Graph, nout: usize, nin: usize) -> (m: Vec<Vec<ValueRef>>)
    requires
        autograd::well_formed(old(graph)@),
    ensures
        autograd::well_formed(final(graph)@),
        is_matrix(m@.map_values(|r: Vec<ValueRef>| r@), nout as nat, nin as nat),
        fresh_inputs(old(graph)@, final(graph)@, flatten(m@.map_values(|r: Vec<ValueRef>| r@))),
{
    let ghost g0 = graph@;
    let mut m: Vec<Vec<ValueRef>> = Vec::new();
    let mut r: usize = 0;
    proof {
        assert(m@.map_values(|r: Vec<ValueRef>| r@) =~= Seq::<Seq<ValueRef>>::empty());
        assert(graph@.take(g0.len() as int) =~= g0);
    }
    while r < nout
        invariant
            autograd::well_formed(graph@),
            r <= nout,
            is_matrix(m@.map_values(|r: Vec<ValueRef>| r@), r as nat, nin as nat),
            fresh_inputs(g0, graph@, flatten(m@.map_values(|r: Vec<ValueRef>| r@))),
        decreases nout - r,
    {
        let ghost g1 = graph@;
        let mut row: Vec<ValueRef> = Vec::new();
        let mut c: usize = 0;
        proof {
            assert(graph@.take(g1.len() as int) =~= g1);
        }
        while c < nin
            invariant
                autograd::well_formed(graph@),
                c <= nin,
                row@.len() == c,
                fresh_inputs(g1, graph@, row@),
            decreases nin - c,
        {
            let ghost g2 = graph@;
            let ghost prev = row@;
            let v = ValueRef::new(graph, Vec::new());
            proof {
                assert(graph@[v.index as int].children =~= Seq::<usize>::empty());
                assert(fresh_inputs(g2, graph@, seq![v]));
                lemma_fresh_concat(g1, g2, graph@, row@, seq![v]);
            }
            row.push(v);
            assert(row@ =~= prev + seq![v]);
            c += 1;
        }
        let ghost before = m@.map_values(|r: Vec<ValueRef>| r@);
        let ghost row_view = row@;
        m.push(row);
        proof {
            let after = m@.map_values(|r: Vec<ValueRef>| r@);
            assert(after =~= before.push(row_view));
            assert(after.drop_last() =~= before);
            lemma_fresh_concat(g0, g1, graph@, flatten(before), row_view);
        }
        r += 1;
    }
    m
}

/// Every entry of `m` stands in `flatten(m)`.
proof fn lemma_flatten_has(m: Seq<Seq<ValueRef>>, r: int, c: int)
    requires
        0 <= r < m.len(),
        0 <= c < m[r].len(),
    ensures
        flatten(m).contains(m[r][c]),
    decreases m.len(),
{
    let pre = flatten(m.drop_last());
    assert(flatten(m) == pre + m.last());
    if r == m.len() - 1 {
        assert(flatten(m)[pre.len() + c] == m[r][c]);
    } else {
        assert(m.drop_last()[r] == m[r]);
        lemma_flatten_has(m.drop_last(), r, c);
        let k = choose|k: int| 0 <= k < pre.len() && pre[k] == m[r][c];
        assert(flatten(m)[k] == m[r][c]);
    }
}

/// Every entry of every matrix of `entries` stands in `flatten_entries(entries)`.
proof fn lemma_flatten_entries_has(entries: Seq<(ParamKey, Seq<Seq<ValueRef>>)>, q: int, r: int, c: int)
    requires
        0 <= q < entries.len(),
        0 <= r < entries[q].1.len(),
        0 <= c < entries[q].1[r].len(),
    ensures
        flatten_entries(entries).contains(entries[q].1[r][c]),
    decreases entries.len(),
{
    let pre = flatten_entries(entries.drop_last());
    let last = flatten(entries.last().1);
    assert(flatten_entries(entries) == pre + last);
    if q == entries.len() - 1 {
        lemma_flatten_has(entries[q].1, r, c);
        let k = choose|k: int| 0 <= k < last.len() && last[k] == entries[q].1[r][c];
        assert(flatten_entries(entries)[pre.len() + k] == entries[q].1[r][c]);
    } else {
        assert(entries.drop_last()[q] == entries[q]);
        lemma_flatten_entries_has(entries.drop_last(), q, r, c);
        let k = choose|k: int| 0 <= k < pre.len() && pre[k] == entries[q].1[r][c];
        assert(flatten_entries(entries)[k] == entries[q].1[r][c]);
    }
}

/// When a graph grew by the entries of a state dict's matrices, every entry of every
/// matrix names a node of the grown graph.
pub proof fn lemma_fresh_entries_in_graph(
    old: Seq<NodeView>,
    new: Seq<NodeView>,
    entries: Seq<(ParamKey, Seq<Seq<ValueRef>>)>,
)
    requires
        fresh_inputs(old, new, flatten_entries(entries)),
    ensures
        forall|q: int, r: int, c: int|
            0 <= q < entries.len() && 0 <= r < entries[q].1.len() && 0 <= c < entries[q].1[r].len() ==> (
            #[trigger] entries[q].1[r][c]).index < new.len(),
{
    let all = flatten_entries(entries);
    assert forall|q: int, r: int, c: int|
        0 <= q < entries.len() && 0 <= r < entries[q].1.len() && 0 <= c < entries[q].1[r].len() implies (
        #[trigger] entries[q].1[r][c]).index < new.len() by {
        lemma_flatten_entries_has(entries, q, r, c);
        let k = choose|k: int| 0 <= k < all.len() && all[k] == entries[q].1[r][c];
        assert(all[k].index == old.len() + k);
    }
}

/// The matrix stored under `key`, if any: the last entry with that key.
pub open spec fn lookup(entries: Seq<(ParamKey, Seq<Seq<ValueRef>>)>, key: ParamKey) -> Option<Seq<Seq<ValueRef>>>
    decreases entries.len(),
{
    if entries.len() == 0 {
        None
    } else if entries.last().0 == key {
        Some(entries.last().1)
    } else {
        lookup(entries.drop_last(), key)
    }
}

/// What `lookup` finds is the matrix of one of the entries.
pub proof fn lemma_lookup_entry(entries: Seq<(ParamKey, Seq<Seq<ValueRef>>)>, key: ParamKey)
    ensures
        lookup(entries, key) matches Some(m) ==> exists|p: int| 0 <= p < entries.len() && #[trigger] entries[p] == (key, m),
    decreases entries.len(),
{
    if entries.len() > 0 {
        lemma_lookup_entry(entries.drop_last(), key);
        if lookup(entries, key) is Some && entries.last().0 != key {
            let m = lookup(entries, key).unwrap();
            let p = choose|p: int| 0 <= p < entries.drop_last().len() && #[trigger] entries.drop_last()[p] == (key, m);
            assert(entries[p] == (key, m));
        }
        if entries.last().0 == key {
            assert(entries[entries.len() - 1] == (key, entries.last().1));
        }
    }
}

/// The keys of `entries`, in order.
pub open spec fn keys_of(entries: Seq<(ParamKey, Seq<Seq<ValueRef>>)>) -> Seq<ParamKey> {
    entries.map_values(|e: (ParamKey, Seq<Seq<ValueRef>>)| e.0)
}

/// A key that `lookup` finds stands among the keys.
pub proof fn lemma_lookup_contains(entries: Seq<(ParamKey, Seq<Seq<ValueRef>>)>, key: ParamKey)
    ensures
        lookup(entries, key) is Some <==> keys_of(entries).contains(key),
    decreases entries.len(),
{
    if entries.len() > 0 {
        lemma_lookup_contains(entries.drop_last(), key);
        let n = entries.len() - 1;
        assert(keys_of(entries.drop_last()) =~= keys_of(entries).drop_last());
        if keys_of(entries).contains(key) && entries.last().0 != key {
            let q = choose|q: int| 0 <= q < keys_of(entries).len() && keys_of(entries)[q] == key;
            assert(q != n);
            assert(keys_of(entries.drop_last())[q] == key);
        }
        if keys_of(entries.drop_last()).contains(key) {
            let q = choose|q: int| 0 <= q < keys_of(entries.drop_last()).len() && keys_of(entries.drop_last())[q] == key;
            assert(keys_of(entries)[q] == key);
        }
        if entries.last().0 == key {
            assert(keys_of(entries)[n] == key);
        }
    }
}

/// What `insert` leaves: `key` stored after the others if it was not stored, else its
/// last entry replaced.
pub open spec fn inserted(
    old: Seq<(ParamKey, Seq<Seq<ValueRef>>)>,
    new: Seq<(ParamKey, Seq<Seq<ValueRef>>)>,
    key: ParamKey,
    m: Seq<Seq<ValueRef>>,
) -> bool {
    &&& lookup(old, key) is None ==> new == old.push((key, m))
    &&& lookup(old, key) is Some ==> exists|p: int|
        0 <= p < old.len() && old[p].0 == key && (forall|q: int| p < q < old.len() ==> old[q].0 != key)
            && new == old.update(p, (key, m))
}

/// A read after a write gives back what was written under that key, and what was
/// stored under any other key is unchanged.
pub proof fn lemma_lookup_after_insert(
    old: Seq<(ParamKey, Seq<Seq<ValueRef>>)>,
    new: Seq<(ParamKey, Seq<Seq<ValueRef>>)>,
    key: ParamKey,
    m: Seq<Seq<ValueRef>>,
    other: ParamKey,
)
    requires
        inserted(old, new, key, m),
    ensures
        lookup(new, key) == Some(m),
        other != key ==> lookup(new, other) == lookup(old, other),
{
    if lookup(old, key) is None {
        assert(new.drop_last() =~= old);
    } else {
        let p = choose|p: int|
            0 <= p < old.len() && old[p].0 == key && (forall|q: int| p < q < old.len() ==> old[q].0 != key)
                && new == old.update(p, (key, m));
        lemma_lookup_update(old, p, key, m, other);
    }
}

/// Replacing the last entry of `key` leaves every other key's lookup alone and makes
/// `key` find the new matrix.
proof fn lemma_lookup_update(
    old: Seq<(ParamKey, Seq<Seq<ValueRef>>)>,
    p: int,
    key: ParamKey,
    m: Seq<Seq<ValueRef>>,
    other: ParamKey,
)
    requires
        0 <= p < old.len(),
        old[p].0 == key,
        forall|q: int| p < q < old.len() ==> old[q].0 != key,
    ensures
        lookup(old.update(p, (key, m)), key) == Some(m),
        other != key ==> lookup(old.update(p, (key, m)), other) == lookup(old, other),
    decreases old.len(),
{
    let new = old.update(p, (key, m));
    if p == old.len() - 1 {
        assert(new.drop_last() =~= old.drop_last());
    } else {
        assert(new.drop_last() =~= old.drop_last().update(p, (key, m)));
        lemma_lookup_update(old.drop_last(), p, key, m, other);
    }
}

/// Inserting never makes two entries share a key.
pub proof fn lemma_insert_keeps_keys_distinct(
    old: Seq<(ParamKey, Seq<Seq<ValueRef>>)>,
    new: Seq<(ParamKey, Seq<Seq<ValueRef>>)>,
    key: ParamKey,
    m: Seq<Seq<ValueRef>>,
)
    requires
        inserted(old, new, key, m),
        keys_of(old).no_duplicates(),
    ensures
        keys_of(new).no_duplicates(),
{
    lemma_lookup_contains(old, key);
    if lookup(old, key) is None {
        assert(keys_of(new) =~= keys_of(old).push(key));
        assert forall|a: int, b: int|
            0 <= a < keys_of(new).len() && 0 <= b < keys_of(new).len() && a != b implies keys_of(new)[a]
            != keys_of(new)[b] by {
            if a == old.len() {
                assert(keys_of(old)[b] == keys_of(new)[b]);
            } else if b == old.len() {
                assert(keys_of(old)[a] == keys_of(new)[a]);
            }
        }
    } else {
        let p = choose|p: int|
            0 <= p < old.len() && old[p].0 == key && (forall|q: int| p < q < old.len() ==> old[q].0 != key)
                && new == old.update(p, (key, m));
        assert(keys_of(new) =~= keys_of(old));
    }
}

/// The matrices of the model, each under its key, in the order they were stored.
pub struct StateDict {
    entries: Vec<(ParamKey, Vec<Vec<ValueRef>>)>,
}

/// A matrix as the contracts see it.
pub open spec fn matrix_view(m: Vec<Vec<ValueRef>>) -> Seq<Seq<ValueRef>> {
    m@.map_values(|r: Vec<ValueRef>| r@)
}

impl View for StateDict {
    type V = Seq<(ParamKey, Seq<Seq<ValueRef>>)>;

    closed spec fn view(&self) -> Seq<(ParamKey, Seq<Seq<ValueRef>>)> {
        self.entries@.map_values(|e: (ParamKey, Vec<Vec<ValueRef>>)| (e.0, matrix_view(e.1)))
    }
}

impl StateDict {
    /// An empty state dict.
    pub fn new() -> (d: StateDict)
        ensures
            d@ == Seq::<(ParamKey, Seq<Seq<ValueRef>>)>::empty(),
    {
        let d = StateDict { entries: Vec::new() };
        assert(d@ =~= Seq::<(ParamKey, Seq<Seq<ValueRef>>)>::empty());
        d
    }

    /// The number of matrices stored.
    pub fn len(&self) -> (n: usize)
        ensures
            n == self@.len(),
    {
        self.entries.len()
    }

    /// Stores `m` under `key`: in place of the matrix stored under it, or after the
    /// others if there is none.
    pub fn insert(&mut self, key: ParamKey, m: Vec<Vec<ValueRef>>)
        ensures
            inserted(old(self)@, final(self)@, key, matrix_view(m)),
    {
        let ghost m_view = matrix_view(m);
        let mut p = self.entries.len();
        assert(self@.take(p as int) =~= self@);
        while p > 0
            invariant
                p <= self.entries@.len(),
                self@ == old(self)@,
                m_view == matrix_view(m),
                forall|q: int| p <= q < self@.len() ==> self@[q].0 != key,
                lookup(self@, key) == lookup(self@.take(p as int), key),
            decreases p,
        {
            let ghost prefix = self@.take(p as int);
            assert(prefix.drop_last() =~= self@.take(p - 1));
            assert(prefix.last() == self@[p - 1]);
            assert(self@[p - 1].0 == self.entries@[p - 1].0);
            if self.entries[p - 1].0 == key {
                let ghost before = self@;
                let ghost before_entries = self.entries@;
                let entry = (key, m);
                self.entries.set(p - 1, entry);
                assert(self.entries@ == before_entries.update(p - 1, (key, m)));
                assert forall|q: int| 0 <= q < self@.len() implies self@[q] == before.update(p - 1, (key, m_view))[q] by {
                    if q != p - 1 {
                        assert(self.entries@[q] == before_entries[q]);
                    }
                }
                assert(self@ =~= before.update(p - 1, (key, m_view)));
                assert(0 <= p - 1 < before.len() && before[p - 1].0 == key);
                return;
            }
            p -= 1;
        }
        assert(self@.take(0) =~= Seq::<(ParamKey, Seq<Seq<ValueRef>>)>::empty());
        let ghost before = self@;
        self.entries.push((key, m));
        assert(self@ =~= before.push((key, m_view)));
    }

    /// The matrix stored under `key`, if any.
    pub fn get(&self, key: ParamKey) -> (r: Option<&Vec<Vec<ValueRef>>>)
        ensures
            match r {
                Some(m) => lookup(self@, key) == Some(matrix_view(*m)),
                None => lookup(self@, key) is None,
            },
    {
        let mut p = self.entries.len();
        assert(self@.take(p as int) =~= self@);
        while p > 0
            invariant
                p <= self.entries@.len(),
                lookup(self@, key) == lookup(self@.take(p as int), key),
            decreases p,
        {
            let ghost prefix = self@.take(p as int);
            assert(prefix.drop_last() =~= self@.take(p - 1));
            assert(prefix.last() == self@[p - 1]);
            if self.entries[p - 1].0 == key {
                return Some(&self.entries[p - 1].1);
            }
            p -= 1;
        }
        assert(self@.take(0) =~= Seq::<(ParamKey, Seq<Seq<ValueRef>>)>::empty());
        None
    }

    /// Every entry of every matrix, matrix after matrix and row after row.
    pub fn params(&self) -> (ps: Vec<ValueRef>)
        ensures
            ps@ == flatten_entries(self@),
    {
        let mut ps: Vec<ValueRef> = Vec::new();
        let mut e: usize = 0;
        while e < self.entries.len()
            invariant
                e <= self@.len(),
                ps@ == flatten_entries(self@.take(e as int)),
            decreases self@.len() - e,
        {
            let rows = &self.entries[e].1;
            let ghost done = ps@;
            let mut r: usize = 0;
            proof {
                assert(matrix_view(*rows).take(0) =~= Seq::<Seq<ValueRef>>::empty());
                assert(done =~= done + flatten(matrix_view(*rows).take(0)));
            }
            while r < rows.len()
                invariant
                    r <= rows@.len(),
                    ps@ == done + flatten(matrix_view(*rows).take(r as int)),
                decreases rows@.len() - r,
            {
                let row = &rows[r];
                let ghost mid = ps@;
                let mut c: usize = 0;
                while c < row.len()
                    invariant
                        c <= row@.len(),
                        ps@ == mid + row@.take(c as int),
                    decreases row@.len() - c,
                {
                    ps.push(row[c]);
                    c += 1;
                    assert(ps@ =~= mid + row@.take(c as int));
                }
                proof {
                    let mv = matrix_view(*rows);
                    assert(mv.take(r + 1).drop_last() =~= mv.take(r as int));
                    assert(mv.take(r + 1).last() == row@);
                    assert(row@.take(row@.len() as int) =~= row@);
                    assert(ps@ =~= done + flatten(mv.take(r + 1)));
                }
                r += 1;
            }
            proof {
                let mv = matrix_view(*rows);
                assert(mv.take(rows@.len() as int) =~= mv);
                let t = self@.take(e + 1);
                assert(t.drop_last() =~= self@.take(e as int));
                assert(t.last().1 == mv);
            }
            e += 1;
        }
        assert(self@.take(self@.len() as int) =~= self@);
        ps
    }
}

/// The number of parameters: two `vocab_size x n_embd` matrices, one
/// `block_size x n_embd`, and `12 * n_embd^2` per layer.
pub open spec fn param_count(vocab_size: nat, n_embd: nat, n_layer: nat, block_size: nat) -> nat {
    2 * vocab_size * n_embd + block_size * n_embd + n_layer * (12 * n_embd * n_embd)
}

/// A matrix of `rows` rows of `cols` has `rows * cols` entries.
proof fn lemma_flatten_len(m: Seq<Seq<ValueRef>>, rows: nat, cols: nat)
    requires
        is_matrix(m, rows, cols),
    ensures
        flatten(m).len() == rows * cols,
    decreases rows,
{
    if rows > 0 {
        let r = (rows - 1) as nat;
        assert(is_matrix(m.drop_last(), r, cols)) by {
            assert forall|q: int| 0 <= q < m.drop_last().len() implies (#[trigger] m.drop_last()[q]).len() == cols by {
                assert(m.drop_last()[q] == m[q]);
            }
        }
        lemma_flatten_len(m.drop_last(), r, cols);
        assert(flatten(m) == flatten(m.drop_last()) + m.last());
        assert(m.last().len() == cols) by {
            assert(m[m.len() - 1].len() == cols);
        }
        assert(r * cols + cols == rows * cols) by (nonlinear_arith)
            requires
                r + 1 == rows,
        ;
    } else {
        assert(flatten(m).len() == 0);
        assert(rows * cols == 0) by (nonlinear_arith)
            requires
                rows == 0,
        ;
    }
}

/// Makes a `rows x cols` matrix of fresh inputs and stores it under `key`, which is
/// not stored yet.
fn store(graph: &mut Graph, dict: &mut StateDict, key: ParamKey, rows: usize, cols: usize)
    requires
        autograd::well_formed(old(graph)@),
        !keys_of(old(dict)@).contains(key),
    ensures
        autograd::well_formed(final(graph)@),
        final(dict)@.len() == old(dict)@.len() + 1,
        final(dict)@.drop_last() == old(dict)@,
        final(dict)@.last().0 == key,
        is_matrix(final(dict)@.last().1, rows as nat, cols as nat),
        fresh_inputs(old(graph)@, final(graph)@, flatten(final(dict)@.last().1)),
        flatten(final(dict)@.last().1).len() == rows * cols,
{
    let m = matrix(graph, rows, cols);
    let ghost mv = matrix_view(m);
    let ghost before = dict@;
    proof {
        lemma_lookup_contains(dict@, key);
        lemma_flatten_len(mv, rows as nat, cols as nat);
    }
    dict.insert(key, m);
    assert(dict@ == before.push((key, mv)));
    assert(dict@.drop_last() =~= before);
}

/// The sizes of the model and its parameter matrices.
pub struct Parameters {
    /// Embedding dimension.
    pub n_embd: usize,
    /// Number of attention heads.
    pub n_head: usize,
    /// Number of layers.
    pub n_layer: usize,
    /// Length of the context window.
    pub block_size: usize,
    /// Width of one head: `n_embd / n_head`.
    pub head_dim: usize,
    /// The parameter matrices, each under its key.
    pub state_dict: StateDict,
}

impl Parameters {
    /// Makes every parameter matrix as fresh input nodes of `graph`: the token
    /// embedding, the position embedding, the output head, and six matrices per layer,
    /// in that order. Their values are drawn by the caller.
    pub fn new(
        graph: &mut Graph,
        vocab_size: usize,
        n_embd: usize,
        n_head: usize,
        n_layer: usize,
        block_size: usize,
    ) -> (p: Self)
        requires
            autograd::well_formed(old(graph)@),
            n_head > 0,
            n_layer > 0 ==> 4 * n_embd <= usize::MAX,
        ensures
            autograd::well_formed(final(graph)@),
            p.n_embd == n_embd,
            p.n_head == n_head,
            p.n_layer == n_layer,
            p.block_size == block_size,
            p.head_dim == n_embd / n_head,
            keys_of(p.state_dict@) == layout(n_layer as nat),
            forall|q: int|
                0 <= q < p.state_dict@.len() ==> #[trigger] is_matrix(
                    p.state_dict@[q].1,
                    shape(p.state_dict@[q].0, vocab_size as nat, n_embd as nat, block_size as nat).0,
                    shape(p.state_dict@[q].0, vocab_size as nat, n_embd as nat, block_size as nat).1,
                ),
            fresh_inputs(old(graph)@, final(graph)@, flatten_entries(p.state_dict@)),
            flatten_entries(p.state_dict@).len() == param_count(
                vocab_size as nat,
                n_embd as nat,
                n_layer as nat,
                block_size as nat,
            ),
    {
        let ghost g0 = graph@;
        let ghost (v, e, b) = (vocab_size as nat, n_embd as nat, block_size as nat);
        let mut state_dict = StateDict::new();
        proof {
            assert(graph@.take(g0.len() as int) =~= g0);
            assert(keys_of(state_dict@) =~= Seq::<ParamKey>::empty());
            assert(fresh_inputs(g0, graph@, flatten_entries(state_dict@)));
        }
        let ghost g1 = graph@;
        let ghost d1 = state_dict@;
        store(graph, &mut state_dict, ParamKey::Wte, vocab_size, n_embd);
        proof {
            lemma_fresh_concat(g0, g1, graph@, flatten_entries(d1), flatten(state_dict@.last().1));
            assert(keys_of(state_dict@) =~= seq![ParamKey::Wte]);
        }
        let ghost g2 = graph@;
        let ghost d2 = state_dict@;
        store(graph, &mut state_dict, ParamKey::Wpe, block_size, n_embd);
        proof {
            lemma_fresh_concat(g0, g2, graph@, flatten_entries(d2), flatten(state_dict@.last().1));
            assert(keys_of(state_dict@) =~= seq![ParamKey::Wte, ParamKey::Wpe]);
        }
        let ghost g3 = graph@;
        let ghost d3 = state_dict@;
        store(graph, &mut state_dict, ParamKey::LmHead, vocab_size, n_embd);
        proof {
            lemma_fresh_concat(g0, g3, graph@, flatten_entries(d3), flatten(state_dict@.last().1));
            assert(keys_of(state_dict@) =~= layout(0));
            assert(flatten_entries(state_dict@).len() == v * e + b * e + v * e);
            assert(v * e + b * e + v * e == param_count(v, e, 0, b)) by (nonlinear_arith);
            assert forall|q: int|
                0 <= q < state_dict@.len() implies #[trigger] is_matrix(
                    state_dict@[q].1,
                    shape(state_dict@[q].0, v, e, b).0,
                    shape(state_dict@[q].0, v, e, b).1,
                ) by {
                if q == 0 {
                    assert(state_dict@[0] == d2[0]);
                    assert(d2[0] == d3.drop_last()[0]);
                } else if q == 1 {
                    assert(state_dict@[1] == d3[1]);
                }
            }
        }
        let mut i: usize = 0;
        while i < n_layer
            invariant
                autograd::well_formed(graph@),
                n_layer > 0 ==> 4 * n_embd <= usize::MAX,
                v == vocab_size,
                e == n_embd,
                b == block_size,
                i <= n_layer,
                keys_of(state_dict@) == layout(i as nat),
                forall|q: int|
                    0 <= q < state_dict@.len() ==> #[trigger] is_matrix(
                        state_dict@[q].1,
                        shape(state_dict@[q].0, v, e, b).0,
                        shape(state_dict@[q].0, v, e, b).1,
                    ),
                fresh_inputs(g0, graph@, flatten_entries(state_dict@)),
                flatten_entries(state_dict@).len() == param_count(v, e, i as nat, b),
            decreases n_layer - i,
        {
            let ghost d_start = state_dict@;
            proof {
                lemma_layers_layout_bound(i as nat);
            }
            let ghost gb_AttnWq = graph@;
            let ghost db_AttnWq = state_dict@;
            self::store_layer_matrix(graph, &mut state_dict, i, LayerMatrix::AttnWq, n_embd, n_embd, Ghost(0int), vocab_size, n_embd, block_size);
            proof {
                lemma_fresh_concat(g0, gb_AttnWq, graph@, flatten_entries(db_AttnWq), flatten(state_dict@.last().1));
            }
            let ghost gb_AttnWk = graph@;
            let ghost db_AttnWk = state_dict@;
            self::store_layer_matrix(graph, &mut state_dict, i, LayerMatrix::AttnWk, n_embd, n_embd, Ghost(1int), vocab_size, n_embd, block_size);
            proof {
                lemma_fresh_concat(g0, gb_AttnWk, graph@, flatten_entries(db_AttnWk), flatten(state_dict@.last().1));
            }
            let ghost gb_AttnWv = graph@;
            let ghost db_AttnWv = state_dict@;
            self::store_layer_matrix(graph, &mut state_dict, i, LayerMatrix::AttnWv, n_embd, n_embd, Ghost(2int), vocab_size, n_embd, block_size);
            proof {
                lemma_fresh_concat(g0, gb_AttnWv, graph@, flatten_entries(db_AttnWv), flatten(state_dict@.last().1));
            }
            let ghost gb_AttnWo = graph@;
            let ghost db_AttnWo = state_dict@;
            self::store_layer_matrix(graph, &mut state_dict, i, LayerMatrix::AttnWo, n_embd, n_embd, Ghost(3int), vocab_size, n_embd, block_size);
            proof {
                lemma_fresh_concat(g0, gb_AttnWo, graph@, flatten_entries(db_AttnWo), flatten(state_dict@.last().1));
            }
            let ghost gb_MlpFc1 = graph@;
            let ghost db_MlpFc1 = state_dict@;
            self::store_layer_matrix(graph, &mut state_dict, i, LayerMatrix::MlpFc1, 4 * n_embd, n_embd, Ghost(4int), vocab_size, n_embd, block_size);
            proof {
                lemma_fresh_concat(g0, gb_MlpFc1, graph@, flatten_entries(db_MlpFc1), flatten(state_dict@.last().1));
            }
            let ghost gb_MlpFc2 = graph@;
            let ghost db_MlpFc2 = state_dict@;
            self::store_layer_matrix(graph, &mut state_dict, i, LayerMatrix::MlpFc2, n_embd, 4 * n_embd, Ghost(5int), vocab_size, n_embd, block_size);
            proof {
                lemma_fresh_concat(g0, gb_MlpFc2, graph@, flatten_entries(db_MlpFc2), flatten(state_dict@.last().1));
            }
            proof {
                assert(keys_of(state_dict@) =~= layout((i + 1) as nat)) by {
                    assert(layers_layout((i + 1) as nat) == layers_layout(i as nat) + layer_keys(i));
                    assert(layer_keys(i).take(6) =~= layer_keys(i));
                }
                let ee = e * e;
                assert(4 * e * e == 4 * ee && e * e == ee) by (nonlinear_arith)
                    requires ee == e * e;
                assert((4 * e) * e == 4 * ee && e * (4 * e) == 4 * ee) by (nonlinear_arith)
                    requires ee == e * e;
                assert(param_count(v, e, (i + 1) as nat, b) == param_count(v, e, i as nat, b) + 12 * ee) by (nonlinear_arith)
                    requires ee == e * e;
            }
            i += 1;
        }
        Parameters {
            n_embd,
            n_head,
            n_layer,
            block_size,
            head_dim: n_embd / n_head,
            state_dict,
        }
    }

    /// Every parameter, matrix after matrix and row after row.
    pub fn params(&self) -> (ps: Vec<ValueRef>)
        ensures
            ps@ == flatten_entries(self.state_dict@),
    {
        self.state_dict.params()
    }
}

/// `key` is a matrix of a layer below `n`.
pub open spec fn in_layer_below(key: ParamKey, n: nat) -> bool {
    match key {
        ParamKey::Layer(j, _) => j < n,
        _ => false,
    }
}

/// Every key of the first `n` layers belongs to a layer below `n`.
proof fn lemma_layers_layout_bound(n: nat)
    ensures
        forall|k: int|
            0 <= k < layers_layout(n).len() ==> in_layer_below(#[trigger] layers_layout(n)[k], n),
        layers_layout(n).len() == 6 * n,
    decreases n,
{
    if n > 0 {
        lemma_layers_layout_bound((n - 1) as nat);
        let prev = layers_layout((n - 1) as nat);
        assert forall|k: int|
            0 <= k < layers_layout(n).len() implies in_layer_below(#[trigger] layers_layout(n)[k], n) by {
            if k < prev.len() {
                assert(layers_layout(n)[k] == prev[k]);
            } else {
                assert(layers_layout(n)[k] == layer_keys((n - 1) as usize)[k - prev.len()]);
            }
        }
    }
}

/// The keys of layer `j` stand at positions `6 * j` to `6 * j + 5` of the layers' keys.
proof fn lemma_layers_layout_index(n: nat, j: nat, t: int)
    requires
        j < n,
        0 <= t < 6,
    ensures
        layers_layout(n).len() == 6 * n,
        layers_layout(n)[6 * j + t] == layer_keys(j as usize)[t],
    decreases n,
{
    lemma_layers_layout_bound(n);
    let prev = layers_layout((n - 1) as nat);
    lemma_layers_layout_bound((n - 1) as nat);
    if j < n - 1 {
        lemma_layers_layout_index((n - 1) as nat, j, t);
        assert(layers_layout(n)[6 * j + t] == prev[6 * j + t]);
    } else {
        assert(layers_layout(n)[6 * j + t] == layer_keys((n - 1) as usize)[6 * j + t - prev.len()]);
    }
}

/// A state dict laid out as `Parameters::new` lays it out, for `n_layer` layers and
/// matrices of the shapes that `shape` gives, holds every matrix a forward pass looks
/// up, in its shape: the token embedding with a row per token, the position embedding
/// with a row per position, the output head, and the six matrices of every layer below
/// `n_layer`.
pub proof fn lemma_layout_holds_every_matrix(
    entries: Seq<(ParamKey, Seq<Seq<ValueRef>>)>,
    vocab_size: nat,
    n_embd: nat,
    block_size: nat,
    n_layer: nat,
    key: ParamKey,
)
    requires
        keys_of(entries) == layout(n_layer),
        forall|q: int|
            0 <= q < entries.len() ==> #[trigger] is_matrix(
                entries[q].1,
                shape(entries[q].0, vocab_size, n_embd, block_size).0,
                shape(entries[q].0, vocab_size, n_embd, block_size).1,
            ),
        key matches ParamKey::Layer(j, _) ==> j < n_layer,
    ensures
        lookup(entries, key) is Some,
        is_matrix(
            lookup(entries, key).unwrap(),
            shape(key, vocab_size, n_embd, block_size).0,
            shape(key, vocab_size, n_embd, block_size).1,
        ),
{
    let ks = keys_of(entries);
    let base = seq![ParamKey::Wte, ParamKey::Wpe, ParamKey::LmHead];
    lemma_layers_layout_bound(n_layer);
    let pos: int = match key {
        ParamKey::Wte => 0,
        ParamKey::Wpe => 1,
        ParamKey::LmHead => 2,
        ParamKey::Layer(j, which) => 3 + 6 * j + match which {
            LayerMatrix::AttnWq => 0int,
            LayerMatrix::AttnWk => 1,
            LayerMatrix::AttnWv => 2,
            LayerMatrix::AttnWo => 3,
            LayerMatrix::MlpFc1 => 4,
            LayerMatrix::MlpFc2 => 5,
        },
    };
    if let ParamKey::Layer(j, _) = key {
        lemma_layers_layout_index(n_layer, j as nat, pos - 3 - 6 * j);
        assert(layout(n_layer)[pos] == layers_layout(n_layer)[pos - 3]);
    }
    assert(ks[pos] == key);
    lemma_lookup_contains(entries, key);
    lemma_lookup_entry(entries, key);
    let m = lookup(entries, key).unwrap();
    let p = choose|p: int| 0 <= p < entries.len() && #[trigger] entries[p] == (key, m);
    assert(is_matrix(
        entries[p].1,
        shape(entries[p].0, vocab_size, n_embd, block_size).0,
        shape(entries[p].0, vocab_size, n_embd, block_size).1,
    ));
}

/// Stores the `t`-th matrix of layer `i` while the keys so far are those of the
/// layers below `i` and the first `t` of layer `i`.
fn store_layer_matrix(
    graph: &mut Graph,
    dict: &mut StateDict,
    i: usize,
    which: LayerMatrix,
    rows: usize,
    cols: usize,
    t: Ghost<int>,
    vocab_size: usize,
    n_embd: usize,
    block_size: usize,
)
    requires
        autograd::well_formed(old(graph)@),
        0 <= t@ < 6,
        ParamKey::Layer(i, which) == layer_keys(i)[t@],
        (rows as nat, cols as nat) == shape(ParamKey::Layer(i, which), vocab_size as nat, n_embd as nat, block_size as nat),
        keys_of(old(dict)@) == layout(i as nat) + layer_keys(i).take(t@),
        forall|k: int|
            0 <= k < layers_layout(i as nat).len() ==> in_layer_below(#[trigger] layers_layout(i as nat)[k], i as nat),
        forall|q: int|
            0 <= q < old(dict)@.len() ==> #[trigger] is_matrix(
                old(dict)@[q].1,
                shape(old(dict)@[q].0, vocab_size as nat, n_embd as nat, block_size as nat).0,
                shape(old(dict)@[q].0, vocab_size as nat, n_embd as nat, block_size as nat).1,
            ),
    ensures
        autograd::well_formed(final(graph)@),
        keys_of(final(dict)@) == layout(i as nat) + layer_keys(i).take(t@ + 1),
        forall|q: int|
            0 <= q < final(dict)@.len() ==> #[trigger] is_matrix(
                final(dict)@[q].1,
                shape(final(dict)@[q].0, vocab_size as nat, n_embd as nat, block_size as nat).0,
                shape(final(dict)@[q].0, vocab_size as nat, n_embd as nat, block_size as nat).1,
            ),
        fresh_inputs(old(graph)@, final(graph)@, flatten(final(dict)@.last().1)),
        flatten_entries(final(dict)@) == flatten_entries(old(dict)@) + flatten(final(dict)@.last().1),
        flatten(final(dict)@.last().1).len() == rows * cols,
{
    let key = ParamKey::Layer(i, which);
    proof {
        let ks = keys_of(dict@);
        if ks.contains(key) {
            let q = choose|q: int| 0 <= q < ks.len() && ks[q] == key;
            let base = seq![ParamKey::Wte, ParamKey::Wpe, ParamKey::LmHead];
            let ll = layers_layout(i as nat);
            assert(layout(i as nat) == base + ll);
            if q < 3 {
                assert(ks[q] == base[q]);
            } else if q < 3 + ll.len() {
                assert(ks[q] == ll[q - 3]);
            } else {
                assert(ks[q] == layer_keys(i)[q - 3 - ll.len()]);
            }
        }
    }
    let ghost before = dict@;
    store(graph, dict, key, rows, cols);
    proof {
        assert(keys_of(dict@) =~= keys_of(before).push(key));
        assert(layer_keys(i).take(t@ + 1) =~= layer_keys(i).take(t@).push(layer_keys(i)[t@]));
        assert(layer_keys(i)[t@] == key);
        assert(keys_of(dict@) =~= layout(i as nat) + layer_keys(i).take(t@ + 1));
        assert forall|q: int|
            0 <= q < dict@.len() implies #[trigger] is_matrix(
                dict@[q].1,
                shape(dict@[q].0, vocab_size as nat, n_embd as nat, block_size as nat).0,
                shape(dict@[q].0, vocab_size as nat, n_embd as nat, block_size as nat).1,
            ) by {
            if q < before.len() {
                assert(dict@[q] == dict@.drop_last()[q]);
            }
        }
    }
}

} // verus!
