//! The abstract graph that a store stands for, the effect of each edge
//! operation on it, and the laws those effects obey.
use vstd::prelude::*;

verus! {

/// The abstract graph: for each node index, its successors and its
/// predecessors, each in insertion order.
pub type GraphModel = Seq<(Seq<usize>, Seq<usize>)>;

/// The successors recorded for node `u`.
pub open spec fn succs(m: GraphModel, u: usize) -> Seq<usize> {
    m[u as int].0
}

/// The predecessors recorded for node `u`.
pub open spec fn preds(m: GraphModel, u: usize) -> Seq<usize> {
    m[u as int].1
}

/// Every adjacency sequence is free of repeats and names existing nodes, and
/// the predecessor sequences mirror the successor sequences exactly.
pub open spec fn well_formed(m: GraphModel) -> bool {
    &&& forall|u: usize| u < m.len() ==> (#[trigger] succs(m, u)).no_duplicates()
    &&& forall|u: usize| u < m.len() ==> (#[trigger] preds(m, u)).no_duplicates()
    &&& forall|u: usize, x: usize| u < m.len() && #[trigger] succs(m, u).contains(x) ==> x < m.len()
    &&& forall|u: usize, x: usize| u < m.len() && #[trigger] preds(m, u).contains(x) ==> x < m.len()
    &&& forall|u: usize, v: usize|
        #![trigger succs(m, u).contains(v)]
        #![trigger preds(m, v).contains(u)]
        u < m.len() && v < m.len() ==> (succs(m, u).contains(v) <==> preds(m, v).contains(u))
}

/// `s` with every occurrence of `x` taken out, the rest in order.
pub open spec fn without(s: Seq<usize>, x: usize) -> Seq<usize>
    decreases s.len(),
{
    if s.len() == 0 {
        s
    } else {
        let rest = without(s.drop_last(), x);
        if s.last() == x {
            rest
        } else {
            rest.push(s.last())
        }
    }
}

/// The graph after adding the edge `u -> v`: unchanged when the edge is
/// already there, else `v` is appended to the successors of `u` and `u` to
/// the predecessors of `v`.
pub open spec fn with_edge(m: GraphModel, u: usize, v: usize) -> GraphModel {
    if succs(m, u).contains(v) {
        m
    } else {
        let m1 = m.update(u as int, (succs(m, u).push(v), preds(m, u)));
        m1.update(v as int, (succs(m1, v), preds(m1, v).push(u)))
    }
}

/// The graph after removing the edge `u -> v`: every `v` leaves the
/// successors of `u` and every `u` leaves the predecessors of `v`.
pub open spec fn without_edge(m: GraphModel, u: usize, v: usize) -> GraphModel {
    let m1 = m.update(u as int, (without(succs(m, u), v), preds(m, u)));
    m1.update(v as int, (succs(m1, v), without(preds(m1, v), u)))
}

/// What is left after taking `x` out of `s` is what `s` holds besides `x`.
proof fn lemma_without_contains(s: Seq<usize>, x: usize, y: usize)
    ensures
        without(s, x).contains(y) <==> (s.contains(y) && y != x),
    decreases s.len(),
{
    if s.len() > 0 {
        let d = s.drop_last();
        lemma_without_contains(d, x, y);
        assert(s =~= d.push(s.last()));
        if d.contains(y) {
            let k = choose|k: int| 0 <= k < d.len() && d[k] == y;
            assert(s[k] == y);
        }
        if s.contains(y) && !d.contains(y) {
            assert(s.last() == y);
        }
        if without(s, x).contains(y) && !without(d, x).contains(y) {
            assert(s.last() == y);
            assert(s[s.len() - 1] == y);
        }
        if s.last() != x {
            let r = without(d, x);
            assert(r.push(s.last())[r.len() as int] == s.last());
            if r.contains(y) {
                let k = choose|k: int| 0 <= k < r.len() && r[k] == y;
                assert(r.push(s.last())[k] == y);
            }
        }
    }
}

/// Taking an element out of a sequence without repeats leaves none.
proof fn lemma_without_distinct(s: Seq<usize>, x: usize)
    requires
        s.no_duplicates(),
    ensures
        without(s, x).no_duplicates(),
    decreases s.len(),
{
    if s.len() > 0 {
        let d = s.drop_last();
        assert(d.no_duplicates());
        lemma_without_distinct(d, x);
        if s.last() != x {
            lemma_without_contains(d, x, s.last());
            assert(!d.contains(s.last())) by {
                if d.contains(s.last()) {
                    let k = choose|k: int| 0 <= k < d.len() && d[k] == s.last();
                    assert(s[k] == s[s.len() - 1]);
                }
            }
        }
    }
}

/// Taking out an element that is not there changes nothing.
proof fn lemma_without_absent(s: Seq<usize>, x: usize)
    requires
        !s.contains(x),
    ensures
        without(s, x) == s,
    decreases s.len(),
{
    if s.len() > 0 {
        let d = s.drop_last();
        assert(!d.contains(x)) by {
            if d.contains(x) {
                let k = choose|k: int| 0 <= k < d.len() && d[k] == x;
                assert(s[k] == x);
            }
        }
        lemma_without_absent(d, x);
        assert(s.last() != x) by {
            assert(s[s.len() - 1] == s.last());
        }
        assert(s =~= d.push(s.last()));
    }
}

/// Appending an element is seen by `contains` exactly as expected.
pub(crate) proof fn lemma_push_contains(s: Seq<usize>, a: usize, y: usize)
    ensures
        s.push(a).contains(y) <==> (s.contains(y) || y == a),
{
    let t = s.push(a);
    assert(t[s.len() as int] == a);
    if s.contains(y) {
        let k = choose|k: int| 0 <= k < s.len() && s[k] == y;
        assert(t[k] == y);
    }
    if t.contains(y) && y != a {
        let k = choose|k: int| 0 <= k < t.len() && t[k] == y;
        assert(s[k] == y);
    }
}

/// Adding an edge keeps a well-formed graph well formed.
pub(crate) proof fn lemma_with_edge_wf(m: GraphModel, u: usize, v: usize)
    requires
        well_formed(m),
        u < m.len(),
        v < m.len(),
    ensures
        well_formed(with_edge(m, u, v)),
        with_edge(m, u, v).len() == m.len(),
{
    if !succs(m, u).contains(v) {
        let r = with_edge(m, u, v);
        assert(!preds(m, v).contains(u));
        assert forall|a: usize, b: usize| a < m.len() implies
            (succs(r, a).contains(b) <==> (succs(m, a).contains(b) || (a == u && b == v)))
            && (preds(r, a).contains(b) <==> (preds(m, a).contains(b) || (a == v && b == u))) by {
            lemma_push_contains(succs(m, u), v, b);
            lemma_push_contains(preds(m, v), u, b);
        }
        assert forall|a: usize| #![trigger succs(r, a)] #![trigger preds(r, a)] a < m.len() implies
            succs(r, a).no_duplicates() && preds(r, a).no_duplicates() by {
            lemma_push_contains(succs(m, u), v, v);
            lemma_push_contains(preds(m, v), u, u);
            let s = succs(m, u).push(v);
            assert(succs(r, a) == if a == u { s } else { succs(m, a) });
            assert(preds(r, a) == if a == v { preds(m, v).push(u) } else { preds(m, a) });
            assert(succs(m, a).no_duplicates());
            assert(preds(m, a).no_duplicates());
            if a == u {
                assert forall|i: int, j: int| 0 <= i < s.len() && 0 <= j < s.len() && i != j
                    implies s[i] != s[j] by {
                    if i == s.len() - 1 {
                        assert(succs(m, u)[j] == s[j]);
                    } else if j == s.len() - 1 {
                        assert(succs(m, u)[i] == s[i]);
                    }
                }
            }
            let p = preds(m, v).push(u);
            if a == v {
                assert forall|i: int, j: int| 0 <= i < p.len() && 0 <= j < p.len() && i != j
                    implies p[i] != p[j] by {
                    if i == p.len() - 1 {
                        assert(preds(m, v)[j] == p[j]);
                    } else if j == p.len() - 1 {
                        assert(preds(m, v)[i] == p[i]);
                    }
                }
            }
        }

        assert forall|a: usize, b: usize| a < m.len() && b < m.len() implies
            (#[trigger] succs(r, a).contains(b) <==> preds(r, b).contains(a)) by {
            lemma_push_contains(succs(m, u), v, b);
            lemma_push_contains(preds(m, v), u, a);
            assert(succs(m, a).contains(b) <==> preds(m, b).contains(a));
        }
        assert forall|a: usize, x: usize| a < m.len() && #[trigger] succs(r, a).contains(x)
            implies x < m.len() by {
            lemma_push_contains(succs(m, u), v, x);
        }
        assert forall|a: usize, x: usize| a < m.len() && #[trigger] preds(r, a).contains(x)
            implies x < m.len() by {
            lemma_push_contains(preds(m, v), u, x);
        }
    }
}

/// Removing an edge keeps a well-formed graph well formed.
pub(crate) proof fn lemma_without_edge_wf(m: GraphModel, u: usize, v: usize)
    requires
        well_formed(m),
        u < m.len(),
        v < m.len(),
    ensures
        well_formed(without_edge(m, u, v)),
        without_edge(m, u, v).len() == m.len(),
{
    let r = without_edge(m, u, v);
    assert forall|a: usize, b: usize| a < m.len() implies
        (succs(r, a).contains(b) <==> (succs(m, a).contains(b) && !(a == u && b == v)))
        && (preds(r, a).contains(b) <==> (preds(m, a).contains(b) && !(a == v && b == u))) by {
        lemma_without_contains(succs(m, u), v, b);
        lemma_without_contains(preds(m, v), u, b);
    }
    assert forall|a: usize| #![trigger succs(r, a)] #![trigger preds(r, a)] a < m.len() implies
        succs(r, a).no_duplicates() && preds(r, a).no_duplicates() by {
        lemma_without_distinct(succs(m, u), v);
        lemma_without_distinct(preds(m, v), u);
        assert(succs(r, a) == if a == u { without(succs(m, u), v) } else { succs(m, a) });
        assert(preds(r, a) == if a == v { without(preds(m, v), u) } else { preds(m, a) });
        assert(succs(m, a).no_duplicates());
        assert(preds(m, a).no_duplicates());
    }
    assert forall|a: usize, b: usize| a < m.len() && b < m.len() implies
        (#[trigger] succs(r, a).contains(b) <==> preds(r, b).contains(a)) by {
        lemma_without_contains(succs(m, u), v, b);
        lemma_without_contains(preds(m, v), u, a);
        assert(succs(m, a).contains(b) <==> preds(m, b).contains(a));
    }
    assert forall|a: usize, x: usize| a < m.len() && #[trigger] succs(r, a).contains(x)
        implies x < m.len() by {
        lemma_without_contains(succs(m, u), v, x);
    }
    assert forall|a: usize, x: usize| a < m.len() && #[trigger] preds(r, a).contains(x)
        implies x < m.len() by {
        lemma_without_contains(preds(m, v), u, x);
    }
}
/// Adding the same edge twice gives the same graph as adding it once.
pub proof fn lemma_make_edge_idempotent(m: GraphModel, u: usize, v: usize)
    requires
        u < m.len(),
        v < m.len(),
    ensures
        with_edge(with_edge(m, u, v), u, v) == with_edge(m, u, v),
{
    let m1 = with_edge(m, u, v);
    if !succs(m, u).contains(v) {
        lemma_push_contains(succs(m, u), v, v);
        assert(succs(m1, u) == succs(m, u).push(v));
    }
}

/// Removing an edge that is not there changes nothing.
pub proof fn lemma_remove_absent_edge(m: GraphModel, u: usize, v: usize)
    requires
        well_formed(m),
        u < m.len(),
        v < m.len(),
        !succs(m, u).contains(v),
    ensures
        without_edge(m, u, v) == m,
{
    lemma_without_absent(succs(m, u), v);
    assert(!preds(m, v).contains(u));
    lemma_without_absent(preds(m, v), u);
    assert(without_edge(m, u, v) =~= m);
}

/// Removing an edge just added leaves neither side with a trace of it.
pub proof fn lemma_remove_after_make(m: GraphModel, u: usize, v: usize)
    requires
        u < m.len(),
        v < m.len(),
    ensures
        !succs(without_edge(with_edge(m, u, v), u, v), u).contains(v),
        !preds(without_edge(with_edge(m, u, v), u, v), v).contains(u),
{
    let m1 = with_edge(m, u, v);
    lemma_without_contains(succs(m1, u), v, v);
    lemma_without_contains(preds(m1, v), u, u);
}

} // verus!
