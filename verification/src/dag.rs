//! Trusted interface to the `daggy` crate.
//!
//! The process graph keeps its edges in a `daggy::Dag`, which rejects any
//! edge insertion that would make the graph cyclic.  The contents of a dag
//! value are abstracted by two uninterpreted functions: the list of node
//! weights in insertion order, and the set of directed edges between node
//! indices.

use vstd::prelude::*;

verus! {

/// Holds the `daggy::Dag` that stores the graph's edges.  The value is
/// opaque here; its contents are abstracted by `dag_node_list` and
/// `dag_edge_set`, and reached only through the trusted functions below.
#[verifier::external_body]
pub struct HashDag {
    inner: daggy::Dag<String, i32>,
}

/// The weights of the dag's nodes, in insertion order; a node's index is
/// its position in this list.
pub uninterp spec fn dag_node_list(d: HashDag) -> Seq<Seq<char>>;

/// The dag's directed edges, as pairs of node indices.
pub uninterp spec fn dag_edge_set(d: HashDag) -> Set<(int, int)>;

/// Whether `p` only steps along edges of `edges`.
pub open spec fn is_path(edges: Set<(int, int)>, p: Seq<int>) -> bool {
    forall|k: int| 0 <= k < p.len() - 1 ==> edges.contains((#[trigger] p[k], p[k + 1]))
}

/// Whether some walk along `edges` leads from `from` to `to`; a walk of a
/// single node connects it to itself.
pub open spec fn spec_path_exists(edges: Set<(int, int)>, from: int, to: int) -> bool {
    exists|p: Seq<int>| is_path(edges, p) && p.len() >= 1 && p[0] == from && p.last() == to
}

/// Whether adding the edge `a -> b` would close a cycle: there is already a
/// walk from `b` back to `a` (trivially so when `a == b`).
pub open spec fn spec_would_cycle(edges: Set<(int, int)>, a: int, b: int) -> bool {
    spec_path_exists(edges, b, a)
}

/// Relies on `daggy::Dag::new`: creates an empty graph.
#[verifier::external_body]
pub(crate) fn dag_new() -> (d: HashDag)
    ensures
        dag_node_list(d) == Seq::<Seq<char>>::empty(),
        dag_edge_set(d) == Set::<(int, int)>::empty(),
{
    HashDag { inner: daggy::Dag::new() }
}

/// Relies on `daggy::Dag::add_node` (through `petgraph`'s `add_node`): the
/// node is appended and its index, the number of nodes before the call, is
/// returned.  `petgraph` panics at the index type's maximum, which the
/// precondition excludes.
#[verifier::external_body]
pub(crate) fn dag_add_node(d: &mut HashDag, weight: String) -> (r: usize)
    requires
        dag_node_list(*old(d)).len() < 0xFFFF_FFFFusize,
    ensures
        dag_node_list(*final(d)) == dag_node_list(*old(d)).push(weight@),
        dag_edge_set(*final(d)) == dag_edge_set(*old(d)),
        r == dag_node_list(*old(d)).len(),
{
    d.inner.add_node(weight).index()
}

/// Relies on `daggy::Dag::add_edge`: the edge `a -> b` is added and `true`
/// returned, unless a walk from `b` back to `a` already exists (`daggy`
/// checks `petgraph::algo::has_path_connecting`, which also holds when
/// `a == b`), in which case nothing changes and `false` is returned.  When
/// `daggy` skips the connectivity check — `a` without parents, `b` without
/// children, or an existing `a -> b` edge — no such walk can exist, because
/// the dag is acyclic at all times.  `petgraph` panics on an out-of-bounds
/// index, which the preconditions exclude.
#[verifier::external_body]
pub(crate) fn dag_add_edge(d: &mut HashDag, a: usize, b: usize, weight: i32) -> (r: bool)
    requires
        a < dag_node_list(*old(d)).len(),
        b < dag_node_list(*old(d)).len(),
    ensures
        r == !spec_would_cycle(dag_edge_set(*old(d)), a as int, b as int),
        r ==> dag_edge_set(*final(d)) == dag_edge_set(*old(d)).insert((a as int, b as int)),
        !r ==> dag_edge_set(*final(d)) == dag_edge_set(*old(d)),
        dag_node_list(*final(d)) == dag_node_list(*old(d)),
{
    d.inner.add_edge(daggy::NodeIndex::new(a), daggy::NodeIndex::new(b), weight).is_ok()
}

/// Relies on `daggy::Dag::node_count`.
#[verifier::external_body]
pub(crate) fn dag_node_count(d: &HashDag) -> (r: usize)
    ensures
        r == dag_node_list(*d).len(),
{
    d.inner.node_count()
}

/// A walk along strictly ascending edges never descends: its last node is
/// at least its first.
proof fn lemma_path_ascends(edges: Set<(int, int)>, p: Seq<int>)
    requires
        forall|x: int, y: int| edges.contains((x, y)) ==> x < y,
        is_path(edges, p),
        p.len() >= 1,
    ensures
        p[0] <= p.last(),
        p.len() >= 2 ==> p[0] < p.last(),
    decreases p.len(),
{
    if p.len() >= 2 {
        assert(edges.contains((p[0], p[1])));
        let q = p.drop_first();
        assert(is_path(edges, q)) by {
            assert forall|k: int| 0 <= k < q.len() - 1 implies edges.contains(
                (#[trigger] q[k], q[k + 1]),
            ) by {
                assert(q[k] == p[k + 1]);
                assert(q[k + 1] == p[k + 2]);
            }
        }
        lemma_path_ascends(edges, q);
    }
}

/// When every edge goes from a smaller index to a strictly larger one,
/// adding an edge `a -> b` with `a < b` cannot close a cycle.
pub proof fn lemma_forward_edges_no_cycle(edges: Set<(int, int)>, a: int, b: int)
    requires
        forall|x: int, y: int| edges.contains((x, y)) ==> x < y,
        a < b,
    ensures
        !spec_would_cycle(edges, a, b),
{
    if spec_would_cycle(edges, a, b) {
        let p = choose|p: Seq<int>| is_path(edges, p) && p.len() >= 1 && p[0] == b && p.last() == a;
        lemma_path_ascends(edges, p);
    }
}

} // verus!
