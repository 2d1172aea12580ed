use vstd::prelude::*;
use std::collections::HashSet;

verus! {

broadcast use vstd::std_specs::hash::group_hash_axioms;

/// How a node of the graph came about. The numbers of the computation (data,
/// gradients, local gradients) are not held here: this graph records which node
/// depends on which, and how.
#[derive(Clone, Copy, Debug, PartialEq, Eq)]
pub enum Op {
    /// A value given from outside, with the children it was given.
    Input,
    /// The constant `numer / denom`.
    Constant { numer: i128, denom: u64 },
    /// The sum of its two children.
    Add,
    /// The product of its two children.
    Mul,
    /// Its only child raised to the power of the node `exponent`, which is no child:
    /// no gradient flows into the exponent.
    Pow { exponent: usize },
    /// The natural logarithm of its only child.
    Log,
    /// `e` raised to its only child.
    Exp,
    /// Its only child where positive, else zero.
    Relu,
}

/// One node: an identifier, how it came about, and the nodes it depends on.
pub struct Node {
    pub id: u128,
    pub op: Op,
    pub children: Vec<usize>,
}

/// What a node is, as the contracts see it.
pub struct NodeView {
    pub id: u128,
    pub op: Op,
    pub children: Seq<usize>,
}

impl View for Node {
    type V = NodeView;

    open spec fn view(&self) -> NodeView {
        NodeView { id: self.id, op: self.op, children: self.children@ }
    }
}

/// The number of children each kind of node has (`Input` may have any number).
pub open spec fn arity_ok(op: Op, n: nat) -> bool {
    match op {
        Op::Input => true,
        Op::Constant { .. } => n == 0,
        Op::Add | Op::Mul => n == 2,
        Op::Pow { .. } | Op::Log | Op::Exp | Op::Relu => n == 1,
    }
}

/// Node `i` depends only on nodes made before it, in the number its kind asks for.
pub open spec fn node_ok(g: Seq<NodeView>, i: usize) -> bool {
    &&& arity_ok(g[i as int].op, g[i as int].children.len())
    &&& forall|k: int| 0 <= k < g[i as int].children.len() ==> #[trigger] children_of(g, i)[k] < i
    &&& (g[i as int].op matches Op::Pow { exponent } ==> exponent < i)
}

/// A graph in which every node depends only on earlier ones: it has no cycle.
pub open spec fn well_formed(g: Seq<NodeView>) -> bool {
    forall|i: usize| i < g.len() ==> #[trigger] node_ok(g, i)
}

/// No two nodes of the graph share an identifier.
pub open spec fn ids_distinct(g: Seq<NodeView>) -> bool {
    forall|a: int, b: int| 0 <= a < g.len() && 0 <= b < g.len() && a != b ==> #[trigger] g[a].id
        != #[trigger] g[b].id
}

/// `id` carries the version and variant bits of a version-4, RFC 4122 UUID: all that
/// is known of an identifier drawn at random.
pub open spec fn is_v4_id(id: u128) -> bool {
    &&& (id >> 76u128) & 0xf == 4
    &&& (id >> 62u128) & 0x3 == 2
}

/// `new` is `old` with one node more, made as `op` with `children`, under a fresh
/// random identifier.
pub open spec fn pushed(old: Seq<NodeView>, new: Seq<NodeView>, op: Op, children: Seq<usize>) -> bool {
    &&& new.len() == old.len() + 1
    &&& new.take(old.len() as int) == old
    &&& new[old.len() as int].op == op
    &&& new[old.len() as int].children == children
    &&& is_v4_id(new[old.len() as int].id)
}

/// The children of node `i`.
pub open spec fn children_of(g: Seq<NodeView>, i: usize) -> Seq<usize> {
    g[i as int].children
}

/// Where the depth-first walk of `build_topo` stands: the identifiers it has
/// visited, and the nodes it has finished, in the order it finished them.
pub struct TopoState {
    pub visited: Set<u128>,
    pub order: Seq<usize>,
}

/// The walk from node `i`: a node whose identifier was visited is skipped; else its
/// identifier is marked, its children are walked in turn, and the node is finished.
pub open spec fn dfs(g: Seq<NodeView>, i: usize, st: TopoState) -> TopoState
    decreases i, 1int, 0int,
{
    if i < g.len() && !st.visited.contains(g[i as int].id) {
        let st1 = dfs_children(
            g,
            i,
            0,
            TopoState { visited: st.visited.insert(g[i as int].id), order: st.order },
        );
        TopoState { visited: st1.visited, order: st1.order.push(i) }
    } else {
        st
    }
}

/// The walk from the children of node `i`, from its `k`-th child on.
pub open spec fn dfs_children(g: Seq<NodeView>, i: usize, k: int, st: TopoState) -> TopoState
    decreases i, 0int, children_of(g, i).len() - k,
{
    if i < g.len() && 0 <= k < children_of(g, i).len() {
        let c = children_of(g, i)[k];
        if c < i {
            dfs_children(g, i, k + 1, dfs(g, c, st))
        } else {
            dfs_children(g, i, k + 1, st)
        }
    } else {
        st
    }
}

/// The nodes that the walk from `root` finishes, in the order it finishes them.
pub open spec fn topo_order(g: Seq<NodeView>, root: usize) -> Seq<usize> {
    dfs(g, root, TopoState { visited: Set::empty(), order: Seq::empty() }).order
}

/// `s` back to front.
pub open spec fn reversed(s: Seq<usize>) -> Seq<usize> {
    Seq::new(s.len(), |j: int| s[s.len() - 1 - j])
}

/// The nodes that `i` depends on, itself included.
pub open spec fn reach(g: Seq<NodeView>, i: usize) -> Set<usize>
    decreases i, 1int, 0int,
{
    if i < g.len() {
        reach_children(g, i, 0).insert(i)
    } else {
        Set::empty()
    }
}

/// The nodes that the children of `i`, from the `k`-th on, depend on, themselves included.
pub open spec fn reach_children(g: Seq<NodeView>, i: usize, k: int) -> Set<usize>
    decreases i, 0int, children_of(g, i).len() - k,
{
    if i < g.len() && 0 <= k < children_of(g, i).len() {
        let c = children_of(g, i)[k];
        let here = if c < i {
            reach(g, c)
        } else {
            Set::empty()
        };
        here.union(reach_children(g, i, k + 1))
    } else {
        Set::empty()
    }
}

/// The node at position `p` of `order` comes after all its children.
pub open spec fn finished_after_children(g: Seq<NodeView>, order: Seq<usize>, p: int) -> bool {
    &&& order[p] < g.len()
    &&& forall|k: int|
        0 <= k < children_of(g, order[p]).len() ==> order.take(p).contains(
            #[trigger] children_of(g, order[p])[k],
        )
}

/// Every node of `order` comes after all of its children.
pub open spec fn children_before(g: Seq<NodeView>, order: Seq<usize>) -> bool {
    forall|p: int, k: int|
        0 <= p < order.len() && 0 <= k < children_of(g, order[p]).len() ==> #[trigger] has_child_before(
            g,
            order,
            p,
            k,
        )
}

/// The `k`-th child of the node at position `p` of `order` stands at an earlier position.
pub open spec fn has_child_before(g: Seq<NodeView>, order: Seq<usize>, p: int, k: int) -> bool {
    exists|q: int| 0 <= q < p && #[trigger] order[q] == children_of(g, order[p])[k]
}

/// Every node of `order` comes before all of its children.
pub open spec fn parents_before(g: Seq<NodeView>, order: Seq<usize>) -> bool {
    forall|p: int, k: int|
        0 <= p < order.len() && 0 <= k < children_of(g, order[p]).len() ==> #[trigger] has_child_after(
            g,
            order,
            p,
            k,
        )
}

/// The `k`-th child of the node at position `p` of `order` stands at a later position.
pub open spec fn has_child_after(g: Seq<NodeView>, order: Seq<usize>, p: int, k: int) -> bool {
    exists|q: int| p < q < order.len() && #[trigger] order[q] == children_of(g, order[p])[k]
}

/// What holds of the walk's state while it runs: nothing is finished twice, every
/// finished node comes after its children, and a node's identifier is marked exactly
/// when the node is finished or still open (`open` holds the nodes whose children
/// are being walked).
pub open spec fn walk_inv(g: Seq<NodeView>, st: TopoState, open: Set<usize>) -> bool {
    &&& st.order.no_duplicates()
    &&& forall|p: int| 0 <= p < st.order.len() ==> #[trigger] finished_after_children(g, st.order, p)
    &&& forall|n: usize|
        n < g.len() ==> (st.visited.contains(#[trigger] g[n as int].id) <==> (st.order.contains(n)
            || open.contains(n)))
}

/// Membership in `reach_children` unfolds to membership in what one child reaches.
proof fn lemma_reach_children(g: Seq<NodeView>, i: usize, k: int)
    requires
        well_formed(g),
        i < g.len(),
        0 <= k <= children_of(g, i).len(),
    ensures
        forall|x: usize|
            reach_children(g, i, k).contains(x) <==> exists|j: int|
                k <= j < children_of(g, i).len() && #[trigger] reach(g, children_of(g, i)[j]).contains(x),
    decreases children_of(g, i).len() - k,
{
    assert(node_ok(g, i));
    if k < children_of(g, i).len() {
        lemma_reach_children(g, i, k + 1);
        assert(children_of(g, i)[k] < i);
        let c = children_of(g, i)[k];
        assert(reach_children(g, i, k) == reach(g, c).union(reach_children(g, i, k + 1)));
        assert forall|x: usize|
            reach_children(g, i, k).contains(x) implies exists|j: int|
                k <= j < children_of(g, i).len() && #[trigger] reach(g, children_of(g, i)[j]).contains(x)
        by {
            if reach(g, c).contains(x) {
                assert(reach(g, children_of(g, i)[k]).contains(x));
            } else {
                assert(reach_children(g, i, k + 1).contains(x));
            }
        }
        assert forall|x: usize|
            (exists|j: int|
                k <= j < children_of(g, i).len() && #[trigger] reach(g, children_of(g, i)[j]).contains(x))
            implies reach_children(g, i, k).contains(x)
        by {
            let j = choose|j: int|
                k <= j < children_of(g, i).len() && #[trigger] reach(g, children_of(g, i)[j]).contains(x);
            if j > k {
                assert(reach_children(g, i, k + 1).contains(x));
            }
        }
    }
}

/// A node depends only on itself and on nodes made before it.
proof fn lemma_reach_bounded(g: Seq<NodeView>, i: usize)
    requires
        well_formed(g),
        i < g.len(),
    ensures
        forall|x: usize| reach(g, i).contains(x) ==> x <= i,
    decreases i,
{
    lemma_reach_children(g, i, 0);
    assert(node_ok(g, i));
    assert(reach(g, i) == reach_children(g, i, 0).insert(i));
    assert forall|x: usize| reach(g, i).contains(x) implies x <= i by {
        if x != i {
            assert(reach_children(g, i, 0).contains(x));
            let j = choose|j: int|
                0 <= j < children_of(g, i).len() && #[trigger] reach(g, children_of(g, i)[j]).contains(x);
            assert(children_of(g, i)[j] < i);
            lemma_reach_bounded(g, children_of(g, i)[j]);
        }
    }
}

/// Every node that a finished node depends on is finished too.
proof fn lemma_finished_reach(g: Seq<NodeView>, order: Seq<usize>, p: int)
    requires
        well_formed(g),
        forall|q: int| 0 <= q < order.len() ==> #[trigger] finished_after_children(g, order, q),
        0 <= p < order.len(),
    ensures
        forall|x: usize| reach(g, order[p]).contains(x) ==> order.contains(x),
    decreases p,
{
    let n = order[p];
    assert(finished_after_children(g, order, p));
    lemma_reach_children(g, n, 0);
    assert(reach(g, n) == reach_children(g, n, 0).insert(n));
    assert forall|x: usize| reach(g, n).contains(x) implies order.contains(x) by {
        if x == n {
            assert(order[p] == x);
        } else {
            assert(reach_children(g, n, 0).contains(x));
            let j = choose|j: int|
                0 <= j < children_of(g, n).len() && #[trigger] reach(g, children_of(g, n)[j]).contains(x);
            let c = children_of(g, n)[j];
            assert(order.take(p).contains(c));
            let q = choose|q: int| 0 <= q < order.take(p).len() && order.take(p)[q] == c;
            assert(order[q] == c);
            lemma_finished_reach(g, order, q);
        }
    }
}

/// What the walk from `i` does: it keeps the invariant, only appends, and finishes
/// exactly the nodes `i` depends on that were not finished yet.
proof fn lemma_dfs(g: Seq<NodeView>, i: usize, st: TopoState, open: Set<usize>)
    requires
        well_formed(g),
        ids_distinct(g),
        i < g.len(),
        walk_inv(g, st, open),
        forall|n: usize| open.contains(n) ==> n > i,
    ensures
        walk_inv(g, dfs(g, i, st), open),
        dfs(g, i, st).order.len() >= st.order.len(),
        dfs(g, i, st).order.take(st.order.len() as int) == st.order,
        forall|n: usize|
            #[trigger] dfs(g, i, st).order.contains(n) <==> (st.order.contains(n) || reach(g, i).contains(n)),
    decreases i, 1int, 0int,
{
    assert(st.order.take(st.order.len() as int) =~= st.order);
    lemma_reach_children(g, i, 0);
    lemma_reach_bounded(g, i);
    if st.visited.contains(g[i as int].id) {
        assert(st.order.contains(i));
        let p = choose|p: int| 0 <= p < st.order.len() && st.order[p] == i;
        lemma_finished_reach(g, st.order, p);
    } else {
        let st1 = TopoState { visited: st.visited.insert(g[i as int].id), order: st.order };
        let open1 = open.insert(i);
        assert forall|n: usize| n < g.len() implies (st1.visited.contains(#[trigger] g[n as int].id) <==> (
        st1.order.contains(n) || open1.contains(n))) by {
            if n != i {
                assert(g[n as int].id != g[i as int].id);
            }
        }
        assert(walk_inv(g, st1, open1));
        lemma_dfs_children(g, i, 0, st1, open1);
        let st3 = dfs_children(g, i, 0, st1);
        let st2 = dfs(g, i, st);
        assert(st2.order == st3.order.push(i));
        assert(!st.order.contains(i));
        assert(!st3.order.contains(i)) by {
            if st3.order.contains(i) {
                assert(reach_children(g, i, 0).contains(i));
                let j = choose|j: int|
                    0 <= j < children_of(g, i).len() && #[trigger] reach(g, children_of(g, i)[j]).contains(i);
                assert(node_ok(g, i));
                assert(children_of(g, i)[j] < i);
                lemma_reach_bounded(g, children_of(g, i)[j]);
            }
        }
        let len3 = st3.order.len() as int;
        assert(st2.order.take(len3) =~= st3.order);
        assert(st2.order.no_duplicates()) by {
            assert forall|a: int, b: int|
                0 <= a < st2.order.len() && 0 <= b < st2.order.len() && a != b implies st2.order[a]
                != st2.order[b] by {
                if a == len3 {
                    assert(st3.order[b] == st2.order[b]);
                } else if b == len3 {
                    assert(st3.order[a] == st2.order[a]);
                }
            }
        }
        assert forall|p: int| 0 <= p < st2.order.len() implies #[trigger] finished_after_children(
            g,
            st2.order,
            p,
        ) by {
            if p < len3 {
                assert(finished_after_children(g, st3.order, p));
                assert(st2.order.take(p) =~= st3.order.take(p));
                assert(st2.order[p] == st3.order[p]);
            } else {
                assert(st2.order.take(p) =~= st3.order);
                assert(st2.order[p] == i);
                assert(node_ok(g, i));
                assert forall|k: int| 0 <= k < children_of(g, i).len() implies st3.order.contains(
                    #[trigger] children_of(g, i)[k],
                ) by {
                    let c = children_of(g, i)[k];
                    assert(c < i);
                    assert(reach(g, c).contains(c)) by {
                        lemma_reach_children(g, c, 0);
                    }
                    assert(reach_children(g, i, 0).contains(c));
                    assert(st3.order.contains(c));
                }
            }
        }
        assert forall|n: usize| n < g.len() implies (st2.visited.contains(#[trigger] g[n as int].id) <==> (
        st2.order.contains(n) || open.contains(n))) by {
            assert(st3.visited.contains(g[n as int].id) <==> (st3.order.contains(n) || open1.contains(n)));
            if n == i {
                assert(st2.order[len3] == i);
            } else {
                if st2.order.contains(n) {
                    let q = choose|q: int| 0 <= q < st2.order.len() && st2.order[q] == n;
                    assert(q != len3);
                    assert(st3.order[q] == n);
                }
                if st3.order.contains(n) {
                    let q = choose|q: int| 0 <= q < st3.order.len() && st3.order[q] == n;
                    assert(st2.order[q] == n);
                }
            }
        }
        assert(st2.order.take(st.order.len() as int) =~= st.order) by {
            assert(st3.order.take(st.order.len() as int) == st.order);
            assert forall|q: int| 0 <= q < st.order.len() implies st2.order[q] == st.order[q] by {
                assert(st3.order.take(st.order.len() as int)[q] == st.order[q]);
            }
        }
        assert forall|n: usize| st2.order.contains(n) <==> (st.order.contains(n) || reach(g, i).contains(n)) by {
            assert(reach(g, i) == reach_children(g, i, 0).insert(i));
            if st2.order.contains(n) {
                let q = choose|q: int| 0 <= q < st2.order.len() && st2.order[q] == n;
                if q != len3 {
                    assert(st3.order[q] == n);
                    assert(st3.order.contains(n));
                    assert(st1.order.contains(n) || reach_children(g, i, 0).contains(n));
                }
            }
            if n == i {
                assert(st2.order[len3] == i);
            } else if st.order.contains(n) || reach(g, i).contains(n) {
                assert(reach(g, i) == reach_children(g, i, 0).insert(i));
                if reach(g, i).contains(n) {
                    assert(reach_children(g, i, 0).contains(n));
                }
                assert(st1.order.contains(n) || reach_children(g, i, 0).contains(n));
                assert(st3.order.contains(n));
                let q = choose|q: int| 0 <= q < st3.order.len() && st3.order[q] == n;
                assert(st2.order[q] == n);
            }
        }
    }
}

/// What the walk over the children of `i`, from the `k`-th on, does.
proof fn lemma_dfs_children(g: Seq<NodeView>, i: usize, k: int, st: TopoState, open: Set<usize>)
    requires
        well_formed(g),
        ids_distinct(g),
        i < g.len(),
        0 <= k <= children_of(g, i).len(),
        walk_inv(g, st, open),
        forall|n: usize| open.contains(n) ==> n >= i,
    ensures
        walk_inv(g, dfs_children(g, i, k, st), open),
        dfs_children(g, i, k, st).order.len() >= st.order.len(),
        dfs_children(g, i, k, st).order.take(st.order.len() as int) == st.order,
        forall|n: usize|
            #[trigger] dfs_children(g, i, k, st).order.contains(n) <==> (st.order.contains(n) || reach_children(
                g,
                i,
                k,
            ).contains(n)),
    decreases i, 0int, children_of(g, i).len() - k,
{
    assert(st.order.take(st.order.len() as int) =~= st.order);
    if k < children_of(g, i).len() {
        assert(node_ok(g, i));
        let c = children_of(g, i)[k];
        assert(c < i);
        lemma_dfs(g, c, st, open);
        let st1 = dfs(g, c, st);
        lemma_dfs_children(g, i, k + 1, st1, open);
        let st2 = dfs_children(g, i, k + 1, st1);
        assert(dfs_children(g, i, k, st) == st2);
        assert(st2.order.take(st.order.len() as int) =~= st.order) by {
            assert forall|q: int| 0 <= q < st.order.len() implies st2.order[q] == st.order[q] by {
                assert(st2.order.take(st1.order.len() as int)[q] == st1.order[q]);
                assert(st1.order.take(st.order.len() as int)[q] == st.order[q]);
            }
        }
    }
}

/// An order in which every node comes after its children, position by position.
proof fn lemma_children_before(g: Seq<NodeView>, order: Seq<usize>)
    requires
        forall|p: int| 0 <= p < order.len() ==> #[trigger] finished_after_children(g, order, p),
    ensures
        children_before(g, order),
{
    assert forall|p: int, k: int|
        0 <= p < order.len() && 0 <= k < children_of(g, order[p]).len() implies #[trigger] has_child_before(
        g,
        order,
        p,
        k,
    ) by {
        assert(finished_after_children(g, order, p));
        let c = children_of(g, order[p])[k];
        assert(order.take(p).contains(c));
        let q = choose|q: int| 0 <= q < order.take(p).len() && order.take(p)[q] == c;
        assert(order[q] == c);
    }
}

/// The walk from `root` finishes every node that `root` depends on exactly once, each
/// after all its children, and `root` last; this holds wherever no two nodes share an
/// identifier.
pub proof fn lemma_topo_order(g: Seq<NodeView>, root: usize)
    requires
        well_formed(g),
        ids_distinct(g),
        root < g.len(),
    ensures
        topo_order(g, root).no_duplicates(),
        forall|n: usize| topo_order(g, root).contains(n) <==> reach(g, root).contains(n),
        topo_order(g, root).len() > 0,
        topo_order(g, root).last() == root,
        children_before(g, topo_order(g, root)),
{
    let st0 = TopoState { visited: Set::empty(), order: Seq::empty() };
    let open = Set::<usize>::empty();
    assert(walk_inv(g, st0, open));
    lemma_dfs(g, root, st0, open);
    let t = topo_order(g, root);
    lemma_reach_children(g, root, 0);
    let st1 = TopoState { visited: st0.visited.insert(g[root as int].id), order: st0.order };
    assert(t == dfs_children(g, root, 0, st1).order.push(root));
    assert forall|n: usize| t.contains(n) <==> reach(g, root).contains(n) by {
        assert(dfs(g, root, st0).order.contains(n) <==> (st0.order.contains(n) || reach(g, root).contains(n)));
    }
    lemma_children_before(g, t);
    assert(children_before(g, t));
}

/// The order of `backward` visits every node that the root depends on exactly once,
/// the root first, and each node before all of its children, so that a node's
/// gradient is complete before it is passed on; this holds wherever no two nodes
/// share an identifier.
pub proof fn lemma_backward_order(g: Seq<NodeView>, root: usize)
    requires
        well_formed(g),
        ids_distinct(g),
        root < g.len(),
    ensures
        reversed(topo_order(g, root)).no_duplicates(),
        forall|n: usize| reversed(topo_order(g, root)).contains(n) <==> reach(g, root).contains(n),
        reversed(topo_order(g, root)).len() > 0,
        reversed(topo_order(g, root))[0] == root,
        parents_before(g, reversed(topo_order(g, root))),
{
    lemma_topo_order(g, root);
    let t = topo_order(g, root);
    let r = reversed(t);
    let n = t.len() as int;
    assert forall|a: int, b: int| 0 <= a < n && 0 <= b < n && a != b implies r[a] != r[b] by {
        assert(r[a] == t[n - 1 - a]);
        assert(r[b] == t[n - 1 - b]);
    }
    assert forall|x: usize| r.contains(x) <==> reach(g, root).contains(x) by {
        if r.contains(x) {
            let q = choose|q: int| 0 <= q < n && r[q] == x;
            assert(t[n - 1 - q] == x);
        }
        if t.contains(x) {
            let q = choose|q: int| 0 <= q < n && t[q] == x;
            assert(r[n - 1 - q] == x);
        }
    }
    assert forall|p: int, k: int|
        0 <= p < n && 0 <= k < children_of(g, r[p]).len() implies #[trigger] has_child_after(g, r, p, k) by {
        let pt = n - 1 - p;
        assert(r[p] == t[pt]);
        assert(has_child_before(g, t, pt, k));
        let c = children_of(g, t[pt])[k];
        let qt = choose|qt: int| 0 <= qt < pt && #[trigger] t[qt] == c;
        assert(r[n - 1 - qt] == c);
    }
}

/// What a node computes, written out down to the inputs and constants it rests on.
pub enum Term {
    /// The input node with this index.
    Input(usize),
    /// The constant `numer / denom`.
    Constant(i128, u64),
    Add(Box<Term>, Box<Term>),
    Mul(Box<Term>, Box<Term>),
    /// The base raised to the exponent.
    Pow(Box<Term>, Box<Term>),
    Log(Box<Term>),
    Exp(Box<Term>),
    Relu(Box<Term>),
}

/// What node `i` computes.
pub open spec fn term(g: Seq<NodeView>, i: usize) -> Term
    decreases i,
{
    if i < g.len() {
        let ch = children_of(g, i);
        match g[i as int].op {
            Op::Input => Term::Input(i),
            Op::Constant { numer, denom } => Term::Constant(numer, denom),
            Op::Add => if ch.len() == 2 && ch[0] < i && ch[1] < i {
                Term::Add(Box::new(term(g, ch[0])), Box::new(term(g, ch[1])))
            } else {
                Term::Input(i)
            },
            Op::Mul => if ch.len() == 2 && ch[0] < i && ch[1] < i {
                Term::Mul(Box::new(term(g, ch[0])), Box::new(term(g, ch[1])))
            } else {
                Term::Input(i)
            },
            Op::Pow { exponent } => if ch.len() == 1 && ch[0] < i && exponent < i {
                Term::Pow(Box::new(term(g, ch[0])), Box::new(term(g, exponent)))
            } else {
                Term::Input(i)
            },
            Op::Log => if ch.len() == 1 && ch[0] < i {
                Term::Log(Box::new(term(g, ch[0])))
            } else {
                Term::Input(i)
            },
            Op::Exp => if ch.len() == 1 && ch[0] < i {
                Term::Exp(Box::new(term(g, ch[0])))
            } else {
                Term::Input(i)
            },
            Op::Relu => if ch.len() == 1 && ch[0] < i {
                Term::Relu(Box::new(term(g, ch[0])))
            } else {
                Term::Input(i)
            },
        }
    } else {
        Term::Input(i)
    }
}

/// What the node behind `v` computes.
pub open spec fn tm(g: Seq<NodeView>, v: ValueRef) -> Term {
    term(g, v.index)
}

/// `new` keeps every node of `old` and may add more after them, each under a fresh
/// random identifier.
pub open spec fn extends(old: Seq<NodeView>, new: Seq<NodeView>) -> bool {
    &&& new.len() >= old.len()
    &&& new.take(old.len() as int) == old
    &&& forall|k: int| old.len() <= k < new.len() ==> is_v4_id(#[trigger] new[k].id)
}

/// A node computes the same thing however the graph grows after it.
pub proof fn lemma_term_stable(old: Seq<NodeView>, new: Seq<NodeView>, i: usize)
    requires
        extends(old, new),
        i < old.len(),
    ensures
        term(new, i) == term(old, i),
    decreases i,
{
    assert(new[i as int] == new.take(old.len() as int)[i as int]);
    let ch = children_of(old, i);
    assert(children_of(new, i) == ch);
    if ch.len() >= 1 && ch[0] < i {
        lemma_term_stable(old, new, ch[0]);
    }
    if ch.len() >= 2 && ch[1] < i {
        lemma_term_stable(old, new, ch[1]);
    }
    if let Op::Pow { exponent } = old[i as int].op {
        if exponent < i {
            lemma_term_stable(old, new, exponent);
        }
    }
}

/// Growing a graph twice is growing it once.
pub proof fn lemma_extends_trans(a: Seq<NodeView>, b: Seq<NodeView>, c: Seq<NodeView>)
    requires
        extends(a, b),
        extends(b, c),
    ensures
        extends(a, c),
{
    assert forall|q: int| 0 <= q < a.len() implies c[q] == a[q] by {
        assert(c.take(b.len() as int)[q] == b[q]);
        assert(b.take(a.len() as int)[q] == a[q]);
    }
    assert forall|k: int| a.len() <= k < c.len() implies is_v4_id(#[trigger] c[k].id) by {
        if k < b.len() {
            assert(c.take(b.len() as int)[k] == b[k]);
        }
    }
    assert(c.take(a.len() as int) =~= a);
}

/// Calls `uuid::Uuid::new_v4` and takes the identifier as a `u128`. The value is
/// random; the contract claims only the bits that mark a version-4, RFC 4122 UUID.
#[verifier::external_body]
fn fresh_node_id() -> (id: u128)
    ensures
        (id >> 76u128) & 0xf == 4,
        (id >> 62u128) & 0x3 == 2,
{
    uuid::Uuid::new_v4().as_u128()
}

/// The computation graph: every value ever made, in the order it was made.
pub struct Graph {
    nodes: Vec<Node>,
}

impl View for Graph {
    type V = Seq<NodeView>;

    closed spec fn view(&self) -> Seq<NodeView> {
        self.nodes@.map_values(|n: Node| n@)
    }
}

/// A handle on a node of a graph.
#[derive(Clone, Copy, Debug, PartialEq, Eq)]
pub struct ValueRef {
    pub index: usize,
}

impl Graph {
    /// An empty graph.
    pub fn new() -> (g: Graph)
        ensures
            g@ == Seq::<NodeView>::empty(),
            well_formed(g@),
    {
        let g = Graph { nodes: Vec::new() };
        assert(g@ =~= Seq::<NodeView>::empty());
        g
    }

    /// The number of nodes.
    pub fn len(&self) -> (n: usize)
        ensures
            n == self@.len(),
    {
        self.nodes.len()
    }

    /// How node `v` came about.
    pub fn op(&self, v: ValueRef) -> (op: Op)
        requires
            v.index < self@.len(),
        ensures
            op == self@[v.index as int].op,
    {
        self.nodes[v.index].op
    }

    /// The identifier of node `v`.
    pub fn id(&self, v: ValueRef) -> (id: u128)
        requires
            v.index < self@.len(),
        ensures
            id == self@[v.index as int].id,
    {
        self.nodes[v.index].id
    }

    /// The children of node `v`.
    pub fn children(&self, v: ValueRef) -> (c: &Vec<usize>)
        requires
            v.index < self@.len(),
        ensures
            c@ == self@[v.index as int].children,
    {
        &self.nodes[v.index].children
    }

    /// Appends a node with a fresh identifier.
    fn push_node(&mut self, op: Op, children: Vec<usize>) -> (v: ValueRef)
        requires
            well_formed(old(self)@),
            arity_ok(op, children@.len()),
            forall|k: int| 0 <= k < children@.len() ==> #[trigger] children@[k] < old(self)@.len(),
            op matches Op::Pow { exponent } ==> exponent < old(self)@.len(),
        ensures
            pushed(old(self)@, final(self)@, op, children@),
            well_formed(final(self)@),
            v.index == old(self)@.len(),
    {
        let ghost old_view = self@;
        let id = fresh_node_id();
        let index = self.nodes.len();
        let ghost cv = children@;
        self.nodes.push(Node { id, op, children });
        proof {
            assert(self@[index as int] == NodeView { id, op, children: cv });
            assert(self@.take(old_view.len() as int) =~= old_view);
            assert forall|i: usize| i < self@.len() implies #[trigger] node_ok(self@, i) by {
                if i < old_view.len() {
                    assert(self@[i as int] == old_view[i as int]);
                    assert(children_of(self@, i) == children_of(old_view, i));
                    assert(node_ok(old_view, i));
                } else {
                    assert(i == index);
                    assert forall|k: int| 0 <= k < self@[i as int].children.len() implies #[trigger] children_of(self@, i)[k] < i by {
                        assert(children_of(self@, i)[k] == cv[k]);
                    }
                    assert(arity_ok(self@[i as int].op, self@[i as int].children.len()));
                    assert(self@[i as int].op matches Op::Pow { exponent } ==> exponent < i);
                }
            }
        }
        ValueRef { index }
    }

    /// The depth-first walk from `value`: marks identifiers in `visited`, and appends
    /// each node to `topo` once all its children are done.
    fn build_topo(&self, value: usize, topo: &mut Vec<usize>, visited: &mut HashSet<u128>)
        requires
            well_formed(self@),
            value < self@.len(),
        ensures
            final(visited)@ == dfs(self@, value, TopoState { visited: old(visited)@, order: old(topo)@ }).visited,
            final(topo)@ == dfs(self@, value, TopoState { visited: old(visited)@, order: old(topo)@ }).order,
        decreases value,
    {
        let ghost g = self@;
        let value_id = self.nodes[value].id;
        assert(value_id == g[value as int].id);
        if !visited.contains(&value_id) {
            visited.insert(value_id);
            let ghost target = dfs_children(
                g,
                value,
                0,
                TopoState { visited: visited@, order: topo@ },
            );
            let n = self.nodes[value].children.len();
            let mut k: usize = 0;
            while k < n
                invariant
                    g == self@,
                    well_formed(g),
                    value < g.len(),
                    n == g[value as int].children.len(),
                    k <= n,
                    dfs_children(g, value, k as int, TopoState { visited: visited@, order: topo@ })
                        == target,
                decreases n - k,
            {
                let child = self.nodes[value].children[k];
                assert(child == children_of(g, value)[k as int]);
                assert(node_ok(g, value));
                self.build_topo(child, topo, visited);
                k += 1;
            }
            topo.push(value);
        }
    }
}

impl ValueRef {
    /// A new input node depending on `children`; its value and local gradients are
    /// given from outside.
    pub fn new(graph: &mut Graph, children: Vec<ValueRef>) -> (r: ValueRef)
        requires
            well_formed(old(graph)@),
            forall|k: int| 0 <= k < children@.len() ==> #[trigger] children@[k].index < old(graph)@.len(),
        ensures
            pushed(old(graph)@, final(graph)@, Op::Input, children@.map_values(|c: ValueRef| c.index)),
            well_formed(final(graph)@),
            r.index == old(graph)@.len(),
            tm(final(graph)@, r) == Term::Input(r.index),
    {
        let mut indices: Vec<usize> = Vec::new();
        let mut k: usize = 0;
        while k < children.len()
            invariant
                k <= children@.len(),
                indices@ == children@.take(k as int).map_values(|c: ValueRef| c.index),
            decreases children@.len() - k,
        {
            indices.push(children[k].index);
            k += 1;
            assert(indices@ =~= children@.take(k as int).map_values(|c: ValueRef| c.index));
        }
        assert(children@.take(children@.len() as int) =~= children@);
        graph.push_node(Op::Input, indices)
    }

    /// A new constant node `numer / denom`.
    pub fn constant(numer: i128, denom: u64, graph: &mut Graph) -> (r: ValueRef)
        requires
            well_formed(old(graph)@),
        ensures
            pushed(old(graph)@, final(graph)@, Op::Constant { numer, denom }, Seq::empty()),
            well_formed(final(graph)@),
            r.index == old(graph)@.len(),
            tm(final(graph)@, r) == Term::Constant(numer, denom),
    {
        let r = graph.push_node(Op::Constant { numer, denom }, Vec::new());
        assert(children_of(graph@, r.index).len() == 0);
        r
    }

    /// `self + rhs`.
    pub fn add(self, rhs: ValueRef, graph: &mut Graph) -> (r: ValueRef)
        requires
            well_formed(old(graph)@),
            self.index < old(graph)@.len(),
            rhs.index < old(graph)@.len(),
        ensures
            pushed(old(graph)@, final(graph)@, Op::Add, seq![self.index, rhs.index]),
            well_formed(final(graph)@),
            r.index == old(graph)@.len(),
            tm(final(graph)@, r) == Term::Add(Box::new(tm(old(graph)@, self)), Box::new(tm(old(graph)@, rhs))),
    {
        let ghost g0 = graph@;
        let mut children: Vec<usize> = Vec::new();
        children.push(self.index);
        children.push(rhs.index);
        assert(children@ =~= seq![self.index, rhs.index]);
        let r = graph.push_node(Op::Add, children);
        proof {
            lemma_term_stable(g0, graph@, self.index);
            lemma_term_stable(g0, graph@, rhs.index);
        }
        r
    }

    /// `self * rhs`.
    pub fn mul(self, rhs: ValueRef, graph: &mut Graph) -> (r: ValueRef)
        requires
            well_formed(old(graph)@),
            self.index < old(graph)@.len(),
            rhs.index < old(graph)@.len(),
        ensures
            pushed(old(graph)@, final(graph)@, Op::Mul, seq![self.index, rhs.index]),
            well_formed(final(graph)@),
            r.index == old(graph)@.len(),
            tm(final(graph)@, r) == Term::Mul(Box::new(tm(old(graph)@, self)), Box::new(tm(old(graph)@, rhs))),
    {
        let ghost g0 = graph@;
        let mut children: Vec<usize> = Vec::new();
        children.push(self.index);
        children.push(rhs.index);
        assert(children@ =~= seq![self.index, rhs.index]);
        let r = graph.push_node(Op::Mul, children);
        proof {
            lemma_term_stable(g0, graph@, self.index);
            lemma_term_stable(g0, graph@, rhs.index);
        }
        r
    }

    /// `self` raised to the power `other`; only `self` becomes a child.
    pub fn pow(self, other: ValueRef, graph: &mut Graph) -> (r: ValueRef)
        requires
            well_formed(old(graph)@),
            self.index < old(graph)@.len(),
            other.index < old(graph)@.len(),
        ensures
            pushed(old(graph)@, final(graph)@, Op::Pow { exponent: other.index }, seq![self.index]),
            well_formed(final(graph)@),
            r.index == old(graph)@.len(),
            tm(final(graph)@, r) == Term::Pow(Box::new(tm(old(graph)@, self)), Box::new(tm(old(graph)@, other))),
    {
        let ghost g0 = graph@;
        let mut children: Vec<usize> = Vec::new();
        children.push(self.index);
        assert(children@ =~= seq![self.index]);
        let r = graph.push_node(Op::Pow { exponent: other.index }, children);
        proof {
            lemma_term_stable(g0, graph@, self.index);
            lemma_term_stable(g0, graph@, other.index);
        }
        r
    }

    /// A node with one child, made as `op`.
    fn unary(self, op: Op, graph: &mut Graph) -> (r: ValueRef)
        requires
            well_formed(old(graph)@),
            self.index < old(graph)@.len(),
            op == Op::Log || op == Op::Exp || op == Op::Relu,
        ensures
            pushed(old(graph)@, final(graph)@, op, seq![self.index]),
            well_formed(final(graph)@),
            r.index == old(graph)@.len(),
            term(final(graph)@, self.index) == term(old(graph)@, self.index),
    {
        let ghost g0 = graph@;
        let mut children: Vec<usize> = Vec::new();
        children.push(self.index);
        assert(children@ =~= seq![self.index]);
        let r = graph.push_node(op, children);
        proof {
            lemma_term_stable(g0, graph@, self.index);
        }
        r
    }

    /// The natural logarithm of `self`.
    pub fn log(self, graph: &mut Graph) -> (r: ValueRef)
        requires
            well_formed(old(graph)@),
            self.index < old(graph)@.len(),
        ensures
            pushed(old(graph)@, final(graph)@, Op::Log, seq![self.index]),
            well_formed(final(graph)@),
            r.index == old(graph)@.len(),
            tm(final(graph)@, r) == Term::Log(Box::new(tm(old(graph)@, self))),
    {
        self.unary(Op::Log, graph)
    }

    /// `e` raised to `self`.
    pub fn exp(self, graph: &mut Graph) -> (r: ValueRef)
        requires
            well_formed(old(graph)@),
            self.index < old(graph)@.len(),
        ensures
            pushed(old(graph)@, final(graph)@, Op::Exp, seq![self.index]),
            well_formed(final(graph)@),
            r.index == old(graph)@.len(),
            tm(final(graph)@, r) == Term::Exp(Box::new(tm(old(graph)@, self))),
    {
        self.unary(Op::Exp, graph)
    }

    /// `self` where positive, else zero.
    pub fn relu(self, graph: &mut Graph) -> (r: ValueRef)
        requires
            well_formed(old(graph)@),
            self.index < old(graph)@.len(),
        ensures
            pushed(old(graph)@, final(graph)@, Op::Relu, seq![self.index]),
            well_formed(final(graph)@),
            r.index == old(graph)@.len(),
            tm(final(graph)@, r) == Term::Relu(Box::new(tm(old(graph)@, self))),
    {
        self.unary(Op::Relu, graph)
    }

    /// `-self`, made as `self` times the constant `-1`.
    pub fn neg(self, graph: &mut Graph) -> (r: ValueRef)
        requires
            well_formed(old(graph)@),
            self.index < old(graph)@.len(),
        ensures
            extends(old(graph)@, final(graph)@),
            final(graph)@.len() == old(graph)@.len() + 2,
            well_formed(final(graph)@),
            r.index == final(graph)@.len() - 1,
            tm(final(graph)@, r) == Term::Mul(Box::new(tm(old(graph)@, self)), Box::new(Term::Constant(-1i128, 1u64))),
    {
        let ghost g0 = graph@;
        let minus_one = ValueRef::constant(-1, 1, graph);
        let ghost g1 = graph@;
        proof {
            lemma_term_stable(g0, g1, self.index);
        }
        let r = self.mul(minus_one, graph);
        proof {
            lemma_extends_trans(g0, g1, graph@);
        }
        r
    }

    /// `self - rhs`, made as `self + (-rhs)`.
    pub fn sub(self, rhs: ValueRef, graph: &mut Graph) -> (r: ValueRef)
        requires
            well_formed(old(graph)@),
            self.index < old(graph)@.len(),
            rhs.index < old(graph)@.len(),
        ensures
            extends(old(graph)@, final(graph)@),
            final(graph)@.len() == old(graph)@.len() + 3,
            well_formed(final(graph)@),
            r.index == final(graph)@.len() - 1,
            tm(final(graph)@, r) == Term::Add(
                Box::new(tm(old(graph)@, self)),
                Box::new(Term::Mul(Box::new(tm(old(graph)@, rhs)), Box::new(Term::Constant(-1i128, 1u64)))),
            ),
    {
        let ghost g0 = graph@;
        let negated = rhs.neg(graph);
        let ghost g1 = graph@;
        proof {
            lemma_term_stable(g0, g1, self.index);
        }
        let r = self.add(negated, graph);
        proof {
            lemma_extends_trans(g0, g1, graph@);
        }
        r
    }

    /// `self / rhs`, made as `self * rhs^-1`.
    pub fn div(self, rhs: ValueRef, graph: &mut Graph) -> (r: ValueRef)
        requires
            well_formed(old(graph)@),
            self.index < old(graph)@.len(),
            rhs.index < old(graph)@.len(),
        ensures
            extends(old(graph)@, final(graph)@),
            final(graph)@.len() == old(graph)@.len() + 3,
            well_formed(final(graph)@),
            r.index == final(graph)@.len() - 1,
            tm(final(graph)@, r) == Term::Mul(
                Box::new(tm(old(graph)@, self)),
                Box::new(Term::Pow(Box::new(tm(old(graph)@, rhs)), Box::new(Term::Constant(-1i128, 1u64)))),
            ),
    {
        let ghost g0 = graph@;
        let minus_one = ValueRef::constant(-1, 1, graph);
        let ghost g1 = graph@;
        let inverse = rhs.pow(minus_one, graph);
        let ghost g2 = graph@;
        proof {
            lemma_term_stable(g0, g1, rhs.index);
            lemma_term_stable(g0, g1, self.index);
            lemma_extends_trans(g0, g1, g2);
            lemma_term_stable(g0, g2, self.index);
        }
        let r = self.mul(inverse, graph);
        proof {
            lemma_extends_trans(g0, g2, graph@);
        }
        r
    }

    /// The order in which backward propagation from `self` visits nodes: the walk's
    /// finishing order, back to front, so that the root comes first.
    pub fn backward(self, graph: &Graph) -> (order: Vec<ValueRef>)
        requires
            well_formed(graph@),
            self.index < graph@.len(),
        ensures
            order@.len() == topo_order(graph@, self.index).len(),
            forall|j: int| 0 <= j < order@.len() ==> #[trigger] order@[j].index
                == reversed(topo_order(graph@, self.index))[j],
    {
        let mut topo: Vec<usize> = Vec::new();
        let mut visited: HashSet<u128> = HashSet::new();
        graph.build_topo(self.index, &mut topo, &mut visited);
        let ghost t = topo@;
        assert(t == topo_order(graph@, self.index));
        let n = topo.len();
        let mut order: Vec<ValueRef> = Vec::new();
        let mut j: usize = 0;
        while j < n
            invariant
                t == topo@,
                n == t.len(),
                j <= n,
                order@.len() == j,
                forall|q: int| 0 <= q < j ==> #[trigger] order@[q].index == t[n - 1 - q],
            decreases n - j,
        {
            order.push(ValueRef { index: topo[n - 1 - j] });
            j += 1;
        }
        order
    }
}

} // verus!
