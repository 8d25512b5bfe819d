//! The graph store, its node handles and the lists that enumerations return.
use vstd::prelude::*;

use crate::model::{
    lemma_push_contains, lemma_with_edge_wf, lemma_without_edge_wf, preds, succs, well_formed,
    with_edge, without, without_edge, GraphModel,
};

verus! {

/// The adjacency record of one node: the indices it has edges to, and the
/// indices that have edges to it, each in insertion order.
#[derive(Debug)]
pub struct NodeRep {
    succ: Vec<usize>,
    pred: Vec<usize>,
}

impl NodeRep {
    pub closed spec fn succ_view(&self) -> Seq<usize> {
        self.succ@
    }

    pub closed spec fn pred_view(&self) -> Seq<usize> {
        self.pred@
    }

    /// A record with no edges in either direction.
    pub fn new() -> (r: NodeRep)
        ensures
            r.succ_view() == Seq::<usize>::empty(),
            r.pred_view() == Seq::<usize>::empty(),
    {
        NodeRep { succ: Vec::new(), pred: Vec::new() }
    }
}

/// A graph store: the records of its nodes, addressed by index, and the
/// identifier that the handles into it carry.
#[derive(Debug)]
pub struct Graph {
    id: u64,
    nodes: Vec<NodeRep>,
}

impl View for Graph {
    type V = GraphModel;

    closed spec fn view(&self) -> GraphModel {
        self.nodes@.map_values(|r: NodeRep| (r.succ@, r.pred@))
    }
}

impl Graph {
    /// The identifier of this store, carried by every handle into it.
    pub closed spec fn spec_id(&self) -> u64 {
        self.id
    }

    /// The store's records form a well-formed graph.
    pub open spec fn wf(&self) -> bool {
        well_formed(self@)
    }

    /// The node `n` belongs to this store and exists in it.
    pub open spec fn holds(&self, n: Node) -> bool {
        n.spec_graph() == self.spec_id() && n.spec_index() < self@.len()
    }
}

/// A handle to one node: the identifier of its store and its index there.
#[derive(Clone, Copy, Debug, PartialEq, Eq, Structural)]
pub struct Node {
    graph: u64,
    idx: usize,
}

impl Node {
    pub closed spec fn spec_graph(&self) -> u64 {
        self.graph
    }

    pub closed spec fn spec_index(&self) -> usize {
        self.idx
    }
}

/// Whether `x` occurs in `s`.
fn contains_index(s: &Vec<usize>, x: usize) -> (r: bool)
    ensures
        r == s@.contains(x),
{
    let mut i: usize = 0;
    while i < s.len()
        invariant
            i <= s.len(),
            forall|k: int| 0 <= k < i ==> s@[k] != x,
        decreases s.len() - i,
    {
        if s[i] == x {
            assert(s@[i as int] == x);
            return true;
        }
        i += 1;
    }
    false
}

/// A copy of `s` with every occurrence of `x` taken out.
fn remove_all(s: &Vec<usize>, x: usize) -> (r: Vec<usize>)
    ensures
        r@ == without(s@, x),
{
    let mut out: Vec<usize> = Vec::new();
    let mut i: usize = 0;
    while i < s.len()
        invariant
            i <= s.len(),
            out@ == without(s@.take(i as int), x),
        decreases s.len() - i,
    {
        assert(s@.take(i + 1).drop_last() =~= s@.take(i as int));
        assert(s@.take(i + 1).last() == s@[i as int]);
        if s[i] != x {
            out.push(s[i]);
        }
        i += 1;
    }
    assert(s@.take(s.len() as int) =~= s@);
    out
}

/// Creates an empty store whose handles carry the identifier `id`; handles
/// of two stores are told apart by it, so each live store needs its own.
pub fn lv_new_graph(id: u64) -> (g: Graph)
    ensures
        g.wf(),
        g@ == Seq::<(Seq<usize>, Seq<usize>)>::empty(),
        g.spec_id() == id,
{
    let g = Graph { id, nodes: Vec::new() };
    assert(g@ =~= Seq::<(Seq<usize>, Seq<usize>)>::empty());
    g
}

/// Releases a store and every node record in it.
pub fn lv_free_graph(g: Graph) {
}

/// Appends a node with no edges to `g` and returns a handle to it; its
/// index is the number of nodes that were there before.
pub fn lv_new_node(g: &mut Graph) -> (n: Node)
    requires
        old(g).wf(),
    ensures
        final(g).wf(),
        final(g).spec_id() == old(g).spec_id(),
        final(g)@ == old(g)@.push((Seq::<usize>::empty(), Seq::<usize>::empty())),
        n.spec_graph() == old(g).spec_id(),
        n.spec_index() == old(g)@.len(),
{
    let ghost m = g@;
    g.nodes.push(NodeRep::new());
    let n = Node { graph: g.id, idx: g.nodes.len() - 1 };
    let ghost e = Seq::<usize>::empty();
    assert(g@ =~= m.push((e, e)));
    proof {
        let r = g@;
        assert forall|a: usize| a < r.len() implies succs(r, a) == (if a < m.len() {
            succs(m, a)
        } else {
            e
        }) && preds(r, a) == (if a < m.len() {
            preds(m, a)
        } else {
            e
        }) by {}
        assert forall|a: usize, b: usize|
            #![trigger succs(r, a).contains(b)]
            #![trigger preds(r, b).contains(a)]
            a < r.len() && b < r.len() implies (succs(r, a).contains(b) <==> preds(
                r,
                b,
            ).contains(a)) by {
            if a < m.len() && b < m.len() {
                assert(succs(m, a).contains(b) <==> preds(m, b).contains(a));
            } else if a < m.len() {
                assert(!succs(m, a).contains(b));
            } else if b < m.len() {
                assert(!preds(m, b).contains(a));
            }
        }
    }
    n
}

/// Releases a node handle; the node itself stays in its store.
pub fn lv_free_node(n: Node) {
}

/// Adds the edge `from -> to` unless it is already there.
pub fn lv_mk_edge(g: &mut Graph, from: &Node, to: &Node)
    requires
        old(g).wf(),
        old(g).holds(*from),
        old(g).holds(*to),
    ensures
        final(g).wf(),
        final(g).spec_id() == old(g).spec_id(),
        final(g)@ == with_edge(old(g)@, from.spec_index(), to.spec_index()),
{
    let ghost m = g@;
    let u = from.idx;
    let v = to.idx;
    if !contains_index(&g.nodes[u].succ, v) {
        g.nodes[u].succ.push(v);
        g.nodes[v].pred.push(u);
        assert(g@ =~= with_edge(m, u, v));
    }
    proof {
        lemma_with_edge_wf(m, u, v);
    }
}

/// Removes every copy of the edge `from -> to`; nothing changes when there
/// is none.
pub fn lv_rm_edge(g: &mut Graph, from: &Node, to: &Node)
    requires
        old(g).wf(),
        old(g).holds(*from),
        old(g).holds(*to),
    ensures
        final(g).wf(),
        final(g).spec_id() == old(g).spec_id(),
        final(g)@ == without_edge(old(g)@, from.spec_index(), to.spec_index()),
{
    let ghost m = g@;
    let u = from.idx;
    let v = to.idx;
    let s = remove_all(&g.nodes[u].succ, v);
    g.nodes[u].succ = s;
    let p = remove_all(&g.nodes[v].pred, u);
    g.nodes[v].pred = p;
    assert(g@ =~= without_edge(m, u, v));
    proof {
        lemma_without_edge_wf(m, u, v);
    }
}

/// The indices that the handles of `l` refer to, in order.
pub open spec fn index_seq(l: Seq<Node>) -> Seq<usize> {
    l.map_values(|n: Node| n.spec_index())
}

/// Every handle of `l` refers to the store with identifier `gid`.
pub open spec fn all_in(l: Seq<Node>, gid: u64) -> bool {
    forall|i: int| 0 <= i < l.len() ==> (#[trigger] l[i]).spec_graph() == gid
}

/// Each index of `s` is smaller than the next one.
pub open spec fn ascending(s: Seq<usize>) -> bool {
    forall|i: int, j: int| 0 <= i < j < s.len() ==> s[i] < s[j]
}

/// An owned sequence of node handles, the result of an enumeration.
#[derive(Debug)]
pub struct NodeList {
    nodes: Vec<Node>,
}

impl View for NodeList {
    type V = Seq<Node>;

    closed spec fn view(&self) -> Seq<Node> {
        self.nodes@
    }
}

/// Handles to the nodes of `s`, taken from its end to its start: the order
/// in which a list built by prepending each in turn would hold them.
fn handles_reversed(gid: u64, s: &Vec<usize>) -> (r: NodeList)
    ensures
        all_in(r@, gid),
        index_seq(r@) == s@.reverse(),
{
    let mut out: Vec<Node> = Vec::new();
    let mut k: usize = s.len();
    while k > 0
        invariant
            k <= s.len(),
            out@.len() == s.len() - k,
            all_in(out@, gid),
            forall|i: int| 0 <= i < out@.len() ==> (#[trigger] out@[i]).spec_index() == s@[s.len() - 1 - i],
        decreases k,
    {
        k -= 1;
        out.push(Node { graph: gid, idx: s[k] });
    }
    assert(index_seq(out@) =~= s@.reverse());
    NodeList { nodes: out }
}

/// Handles to every node of `g`, in ascending order of index.
pub fn lv_nodes(g: &Graph) -> (r: NodeList)
    ensures
        all_in(r@, g.spec_id()),
        index_seq(r@) == Seq::new(g@.len(), |i: int| i as usize),
{
    let mut out: Vec<Node> = Vec::new();
    let n = g.nodes.len();
    let mut i: usize = 0;
    while i < n
        invariant
            n == g@.len(),
            i <= n,
            out@.len() == i,
            all_in(out@, g.spec_id()),
            forall|k: int| 0 <= k < i ==> (#[trigger] out@[k]).spec_index() == k,
        decreases n - i,
    {
        out.push(Node { graph: g.id, idx: i });
        i += 1;
    }
    assert(index_seq(out@) =~= Seq::new(g@.len(), |i: int| i as usize));
    NodeList { nodes: out }
}

/// Handles to the successors of `n`, latest edge first.
pub fn lv_succ(g: &Graph, n: &Node) -> (r: NodeList)
    requires
        g.holds(*n),
    ensures
        all_in(r@, g.spec_id()),
        index_seq(r@) == succs(g@, n.spec_index()).reverse(),
{
    handles_reversed(g.id, &g.nodes[n.idx].succ)
}

/// Handles to the predecessors of `n`, latest edge first.
pub fn lv_pred(g: &Graph, n: &Node) -> (r: NodeList)
    requires
        g.holds(*n),
    ensures
        all_in(r@, g.spec_id()),
        index_seq(r@) == preds(g@, n.spec_index()).reverse(),
{
    handles_reversed(g.id, &g.nodes[n.idx].pred)
}

/// Handles to every node with an edge from or to `n`, each once, in
/// ascending order of index.
pub fn lv_adj(g: &Graph, n: &Node) -> (r: NodeList)
    requires
        g.wf(),
        g.holds(*n),
    ensures
        all_in(r@, g.spec_id()),
        ascending(index_seq(r@)),
        forall|x: usize|
            #[trigger] index_seq(r@).contains(x) <==> (preds(g@, n.spec_index()).contains(x)
                || succs(g@, n.spec_index()).contains(x)),
{
    let ghost u = n.spec_index();
    let rep = &g.nodes[n.idx];
    let count = g.nodes.len();
    let mut out: Vec<Node> = Vec::new();
    let ghost mut found: Seq<usize> = Seq::empty();
    let mut j: usize = 0;
    while j < count
        invariant
            count == g@.len(),
            j <= count,
            rep.pred@ == preds(g@, u),
            rep.succ@ == succs(g@, u),
            all_in(out@, g.spec_id()),
            found == index_seq(out@),
            ascending(found),
            forall|i: int| 0 <= i < found.len() ==> #[trigger] found[i] < j,
            forall|x: usize|
                x < j ==> (#[trigger] found.contains(x) <==> (preds(g@, u).contains(x) || succs(
                    g@,
                    u,
                ).contains(x))),
        decreases count - j,
    {
        if contains_index(&rep.pred, j) || contains_index(&rep.succ, j) {
            out.push(Node { graph: g.id, idx: j });
            proof {
                assert forall|x: usize| #[trigger] found.push(j).contains(x) <==> (found.contains(x) || x == j) by {
                    lemma_push_contains(found, j, x);
                }
                found = found.push(j);
            }
            assert(found =~= index_seq(out@));
        }
        proof {
            assert forall|x: usize| x < j + 1 implies (#[trigger] found.contains(x) <==> (preds(g@, u).contains(x)
                || succs(g@, u).contains(x))) by {
                if x == j && found.contains(x) {
                    let k = choose|k: int| 0 <= k < found.len() && found[k] == x;
                }
            }
        }
        j += 1;
    }
    proof {
        assert forall|x: usize| #[trigger] found.contains(x) <==> (preds(g@, u).contains(x)
            || succs(g@, u).contains(x)) by {
            if found.contains(x) {
                let k = choose|k: int| 0 <= k < found.len() && found[k] == x;
            }
        }
    }
    NodeList { nodes: out }
}

/// Whether `m` is a predecessor or a successor of `n`.
pub fn lv_is_adj(g: &Graph, n: &Node, m: &Node) -> (r: bool)
    requires
        g.holds(*n),
        m.spec_graph() == g.spec_id(),
    ensures
        r == (preds(g@, n.spec_index()).contains(m.spec_index()) || succs(
            g@,
            n.spec_index(),
        ).contains(m.spec_index())),
{
    let rep = &g.nodes[n.idx];
    contains_index(&rep.pred, m.idx) || contains_index(&rep.succ, m.idx)
}

/// Two handles refer to the same node of the same store.
pub open spec fn same_node(a: Node, b: Node) -> bool {
    a.spec_graph() == b.spec_graph() && a.spec_index() == b.spec_index()
}

/// Whether `a` and `b` refer to the same node of the same store.
pub fn lv_eq(a: &Node, b: &Node) -> (r: bool)
    ensures
        r == same_node(*a, *b),
{
    a.graph == b.graph && a.idx == b.idx
}

/// Releases a list with every handle in it, one at a time, and returns how
/// many handles were released.
pub fn lv_node_list_free(l: NodeList) -> (released: usize)
    ensures
        released == l@.len(),
{
    let mut nodes = l.nodes;
    let total = nodes.len();
    let mut released: usize = 0;
    while nodes.len() > 0
        invariant
            released + nodes@.len() == total,
        decreases nodes@.len(),
    {
        let n = nodes.pop().unwrap();
        lv_free_node(n);
        released += 1;
    }
    released
}
/// In a well-formed store, `v` is a successor of `u` exactly when `u` is a
/// predecessor of `v`; every mutating operation keeps the store well formed.
pub proof fn lemma_edge_symmetry(g: &Graph, u: usize, v: usize)
    requires
        g.wf(),
        u < g@.len(),
        v < g@.len(),
    ensures
        succs(g@, u).contains(v) <==> preds(g@, v).contains(u),
{
}
/// Handle equality is reflexive, symmetric and transitive.
pub proof fn lemma_same_node_equivalence(a: Node, b: Node, c: Node)
    ensures
        same_node(a, a),
        same_node(a, b) == same_node(b, a),
        same_node(a, b) && same_node(b, c) ==> same_node(a, c),
{
}

impl Graph {
    /// The identifier that handles into this store carry.
    pub fn id(&self) -> (r: u64)
        ensures
            r == self.spec_id(),
    {
        self.id
    }

    /// The number of nodes created in this store.
    pub fn node_count(&self) -> (r: usize)
        ensures
            r == self@.len(),
    {
        self.nodes.len()
    }
}

impl Node {
    /// The identifier of the store this handle refers into.
    pub fn graph(&self) -> (r: u64)
        ensures
            r == self.spec_graph(),
    {
        self.graph
    }

    /// The index of the node this handle refers to.
    pub fn index(&self) -> (r: usize)
        ensures
            r == self.spec_index(),
    {
        self.idx
    }
}

impl NodeList {
    /// The number of handles in the list.
    pub fn len(&self) -> (r: usize)
        ensures
            r == self@.len(),
    {
        self.nodes.len()
    }

    /// The handle at position `i`.
    pub fn get(&self, i: usize) -> (r: Node)
        requires
            i < self@.len(),
        ensures
            r == self@[i as int],
    {
        self.nodes[i]
    }

    /// The indices of the handles, in list order.
    pub fn indices(&self) -> (r: Vec<usize>)
        ensures
            r@ == index_seq(self@),
    {
        let mut out: Vec<usize> = Vec::new();
        let mut i: usize = 0;
        while i < self.nodes.len()
            invariant
                i <= self@.len(),
                out@ == index_seq(self@).take(i as int),
            decreases self@.len() - i,
        {
            out.push(self.nodes[i].idx);
            i += 1;
            assert(out@ =~= index_seq(self@).take(i as int));
        }
        assert(index_seq(self@).take(i as int) =~= index_seq(self@));
        out
    }
}

} // verus!
