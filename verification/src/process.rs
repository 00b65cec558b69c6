//! The process graph: an append-only, content-addressed collection of
//! derivations.
//!
//! A derivation enters the graph only once its interpolations are resolved
//! and its hash is written.  Re-submitting a derivation with an identical
//! name and identical resolved script text is a no-op that returns the
//! existing node's hash.  A node's dependencies must already be in the graph
//! when it is inserted, so every edge points from an earlier node to a later
//! one and the edge set is acyclic at all times.

use vstd::prelude::*;

use crate::dag::dag_add_edge;
use crate::dag::dag_add_node;
use crate::dag::dag_edge_set;
use crate::dag::dag_new;
use crate::dag::dag_node_count;
use crate::dag::dag_node_list;
use crate::dag::lemma_forward_edges_no_cycle;
use crate::dag::HashDag;
use crate::derivation::Derivation;
use crate::derivation::DerivationView;
use crate::errors::BuildError;
use crate::strutil::str_eq;
use crate::value::spec_dep_hashes_seq;
use crate::value::spec_literal;
use crate::value::AttrValue;

verus! {

/// Whether some node of `ns` carries the content hash `h`.
pub open spec fn spec_contains_hash(ns: Seq<DerivationView>, h: Seq<char>) -> bool {
    exists|j: int| 0 <= j < ns.len() && (#[trigger] ns[j]).hash == Some(h)
}

/// Whether some hash of `deps` belongs to no node of `ns`.
pub open spec fn spec_missing_dep(ns: Seq<DerivationView>, deps: Seq<Seq<char>>) -> bool {
    exists|k: int| 0 <= k < deps.len() && !spec_contains_hash(ns, #[trigger] deps[k])
}

/// Whether the `k`-th dependency of node `i` carries the hash of a node
/// that stands strictly earlier in `ns`.
pub open spec fn spec_dep_resolved_earlier(ns: Seq<DerivationView>, i: int, k: int) -> bool {
    exists|j: int| 0 <= j < i && (#[trigger] ns[j]).hash == Some(ns[i].deps()[k])
}

/// The node-level invariant of the graph: every node is hashed with its own
/// content hash, hashes are unique, and every dependency belongs to an
/// earlier node.
pub open spec fn spec_nodes_wf(ns: Seq<DerivationView>) -> bool {
    &&& forall|i: int| 0 <= i < ns.len() ==> (#[trigger] ns[i]).renderable()
    &&& forall|i: int| 0 <= i < ns.len() ==> (#[trigger] ns[i]).hash == Some(ns[i].full_hash())
    &&& forall|i: int| 0 <= i < ns.len() ==> (#[trigger] ns[i]).inward_edges is Some
    &&& forall|i: int, j: int|
        0 <= i < j < ns.len() ==> (#[trigger] ns[i]).full_hash() != (#[trigger] ns[j]).full_hash()
    &&& forall|i: int, k: int|
        #![trigger spec_dep_resolved_earlier(ns, i, k)]
        0 <= i < ns.len() && 0 <= k < ns[i].deps().len() ==> spec_dep_resolved_earlier(ns, i, k)
}

/// What inserting a resolved derivation does to the graph's nodes: an
/// unrenderable script is rejected; a hash already present is a no-op that
/// returns the existing identity; an unknown dependency hash is rejected as
/// a cycle; otherwise the hashed derivation is appended and its hash
/// returned.
pub open spec fn spec_add_process(ns: Seq<DerivationView>, d: DerivationView) -> (Result<
    Seq<char>,
    BuildError,
>, Seq<DerivationView>) {
    if !d.renderable() {
        (Err(BuildError::EmptyScript), ns)
    } else {
        let h = d.full_hash();
        let hashed = DerivationView { hash: Some(h), ..d };
        if spec_contains_hash(ns, h) {
            (Ok(h), ns)
        } else if spec_missing_dep(ns, d.deps()) {
            (Err(BuildError::CycleDetected), ns)
        } else {
            (Ok(h), ns.push(hashed))
        }
    }
}

/// Directed acyclic graph containing the derivation nodes.
pub struct ProcessGraph {
    dag: HashDag,
    nodes: Vec<Derivation>,
}

impl ProcessGraph {
    /// The derivations of the graph, in insertion order.
    pub closed spec fn spec_nodes(&self) -> Seq<DerivationView> {
        self.nodes.deep_view()
    }

    /// The dag mirrors the nodes: one weight per node, carrying its hash,
    /// and every edge ascending in insertion order.
    pub closed spec fn dag_wf(&self) -> bool {
        &&& dag_node_list(self.dag).len() == self.spec_nodes().len()
        &&& forall|i: int|
            0 <= i < self.spec_nodes().len() ==> dag_node_list(self.dag)[i] == (
            #[trigger] self.spec_nodes()[i]).full_hash()
        &&& forall|x: int, y: int|
            dag_edge_set(self.dag).contains((x, y)) ==> 0 <= x && x < y && y
                < self.spec_nodes().len()
    }

    /// The graph invariant, which `new` establishes and every method
    /// preserves.
    pub open spec fn wf(&self) -> bool {
        spec_nodes_wf(self.spec_nodes()) && self.dag_wf()
    }

    /// An empty graph.
    pub fn new() -> (r: ProcessGraph)
        ensures
            r.wf(),
            r.spec_nodes() == Seq::<DerivationView>::empty(),
    {
        let r = ProcessGraph { dag: dag_new(), nodes: Vec::new() };
        proof {
            assert(r.spec_nodes() =~= Seq::<DerivationView>::empty());
        }
        r
    }

    /// The position of the node carrying hash `h`, if there is one.
    pub fn index_of_hash(&self, h: &str) -> (r: Option<usize>)
        ensures
            match r {
                Some(j) => j < self.spec_nodes().len() && self.spec_nodes()[j as int].hash == Some(
                    h@,
                ),
                None => !spec_contains_hash(self.spec_nodes(), h@),
            },
    {
        let ghost ns = self.spec_nodes();
        let mut i: usize = 0;
        while i < self.nodes.len()
            invariant
                ns == self.spec_nodes(),
                ns.len() == self.nodes@.len(),
                i <= ns.len(),
                forall|j: int| 0 <= j < i ==> (#[trigger] ns[j]).hash != Some(h@),
            decreases ns.len() - i,
        {
            let found = match &self.nodes[i].hash {
                Some(s) => str_eq(s.as_str(), h),
                None => false,
            };
            if found {
                return Some(i);
            }
            i = i + 1;
        }
        None
    }

    /// The node carrying hash `h`, if there is one.
    pub fn get<'a>(&'a self, h: &str) -> (r: Option<&'a Derivation>)
        ensures
            match r {
                Some(d) => d@.hash == Some(h@) && spec_contains_hash(self.spec_nodes(), h@)
                    && exists|j: int|
                    0 <= j < self.spec_nodes().len() && (#[trigger] self.spec_nodes()[j]) == d@,
                None => !spec_contains_hash(self.spec_nodes(), h@),
            },
    {
        match self.index_of_hash(h) {
            Some(j) => Some(&self.nodes[j]),
            None => None,
        }
    }

    /// How many nodes the graph holds.
    pub fn node_count(&self) -> (r: usize)
        requires
            self.wf(),
        ensures
            r == self.spec_nodes().len(),
    {
        dag_node_count(&self.dag)
    }

    /// The content hashes of all nodes, in insertion order: the node
    /// listing diagnostic.
    pub fn hashes(&self) -> (r: Vec<String>)
        requires
            self.wf(),
        ensures
            r.deep_view().len() == self.spec_nodes().len(),
            forall|i: int|
                0 <= i < self.spec_nodes().len() ==> #[trigger] r.deep_view()[i] == (
                self.spec_nodes()[i]).full_hash(),
    {
        let ghost ns = self.spec_nodes();
        let mut r: Vec<String> = Vec::new();
        let mut i: usize = 0;
        while i < self.nodes.len()
            invariant
                self.wf(),
                ns == self.spec_nodes(),
                ns.len() == self.nodes@.len(),
                i <= ns.len(),
                r.deep_view().len() == i,
                forall|q: int| 0 <= q < i ==> #[trigger] r.deep_view()[q] == ns[q].full_hash(),
            decreases ns.len() - i,
        {
            proof {
                assert(ns[i as int].hash == Some(ns[i as int].full_hash()));
            }
            let ghost rb = r.deep_view();
            r.push(self.node_at(i).hash());
            proof {
                assert(r.deep_view() =~~= rb.push(ns[i as int].full_hash()));
            }
            i = i + 1;
        }
        r
    }

    /// The number of derivations in the graph.
    pub fn len(&self) -> (r: usize)
        ensures
            r == self.spec_nodes().len(),
    {
        self.nodes.len()
    }

    /// The node at position `i`.
    pub fn node_at<'a>(&'a self, i: usize) -> (r: &'a Derivation)
        requires
            i < self.spec_nodes().len(),
        ensures
            r@ == self.spec_nodes()[i as int],
    {
        &self.nodes[i]
    }

    /// Writes the derivation's content hash and inserts it, registering an
    /// inward edge from each of its dependencies.  Re-submitting an already
    /// present derivation returns the existing node's hash and changes
    /// nothing; an unknown dependency hash, which would be needed to close
    /// a reference cycle, is rejected with `CycleDetected` and changes
    /// nothing.
    #[verifier::loop_isolation(false)]
    pub fn add_process(&mut self, derivation: Derivation) -> (r: Result<String, BuildError>)
        requires
            old(self).wf(),
            old(self).spec_nodes().len() < 0xFFFF_FFFFusize,
            derivation@.inward_edges is Some,
        ensures
            final(self).wf(),
            final(self).spec_nodes() == spec_add_process(
                old(self).spec_nodes(),
                derivation@,
            ).1,
            match r {
                Ok(h) => spec_add_process(old(self).spec_nodes(), derivation@).0 == Ok::<
                    Seq<char>,
                    BuildError,
                >(h@),
                Err(e) => spec_add_process(old(self).spec_nodes(), derivation@).0 == Err::<
                    Seq<char>,
                    BuildError,
                >(e),
            },
    {
        let ghost ns0 = self.spec_nodes();
        let ghost dv = derivation@;
        let mut derivation = derivation;
        match derivation.write_hash() {
            Err(e) => {
                return Err(e);
            },
            Ok(()) => {},
        }
        let ghost dvh = derivation@;
        let hash = derivation.hash();
        if self.index_of_hash(hash.as_str()).is_some() {
            return Ok(hash);
        }
        let deps_len = match &derivation.inward_edges {
            Some(e) => e.len(),
            None => vstd::pervasive::unreached(),
        };
        let mut dep_indices: Vec<usize> = Vec::new();
        let mut k: usize = 0;
        while k < deps_len
            invariant
                ns0 == self.spec_nodes(),
                ns0 == old(self).spec_nodes(),
                self.wf(),
                dv.inward_edges is Some,
                derivation@ == dvh,
                dvh == (DerivationView { hash: Some(dv.full_hash()), ..dv }),
                dv.renderable(),
                !spec_contains_hash(ns0, dv.full_hash()),
                dvh.deps().len() == deps_len,
                k <= deps_len,
                dep_indices@.len() == k,
                forall|m: int|
                    0 <= m < k ==> #[trigger] dep_indices@[m] < ns0.len() && ns0[dep_indices@[m] as int].hash
                        == Some(dvh.deps()[m]),
            decreases deps_len - k,
        {
            let dep = match &derivation.inward_edges {
                Some(e) => &e[k],
                None => vstd::pervasive::unreached(),
            };
            match self.index_of_hash(dep.as_str()) {
                None => {
                    proof {
                        assert(!spec_contains_hash(ns0, dvh.deps()[k as int]));
                        assert(dvh.deps() == dv.deps());
                        assert(spec_missing_dep(ns0, dv.deps()));
                    }
                    return Err(BuildError::CycleDetected);
                },
                Some(j) => {
                    dep_indices.push(j);
                },
            }
            k = k + 1;
        }
        proof {
            assert(!spec_missing_dep(ns0, dv.deps())) by {
                assert forall|q: int|
                    0 <= q < dv.deps().len() implies spec_contains_hash(
                    ns0,
                    #[trigger] dv.deps()[q],
                ) by {
                    assert(ns0[dep_indices@[q] as int].hash == Some(dvh.deps()[q]));
                }
            }
        }
        let node_index = dag_add_node(&mut self.dag, hash.clone());
        self.nodes.push(derivation);
        let ghost ns1 = self.spec_nodes();
        proof {
            assert(ns1 =~= ns0.push(dvh));
            assert(dvh == DerivationView { hash: Some(dv.full_hash()), ..dv });
            assert(dvh.full_hash() == dv.full_hash());
        }
        let mut e: usize = 0;
        while e < dep_indices.len()
            invariant
                self.spec_nodes() == ns1,
                ns1 == ns0.push(dvh),
                ns0 == old(self).spec_nodes(),
                spec_nodes_wf(ns0),
                dv.inward_edges is Some,
                !spec_missing_dep(ns0, dv.deps()),
                dvh == (DerivationView { hash: Some(dv.full_hash()), ..dv }),
                dv.renderable(),
                !spec_contains_hash(ns0, dv.full_hash()),
                dep_indices@.len() == dvh.deps().len(),
                forall|m: int|
                    0 <= m < dep_indices@.len() ==> #[trigger] dep_indices@[m] < ns0.len()
                        && ns0[dep_indices@[m] as int].hash == Some(dvh.deps()[m]),
                node_index == ns0.len(),
                dag_node_list(self.dag).len() == ns1.len(),
                forall|i: int|
                    0 <= i < ns1.len() ==> dag_node_list(self.dag)[i] == (
                    #[trigger] ns1[i]).full_hash(),
                forall|x: int, y: int|
                    dag_edge_set(self.dag).contains((x, y)) ==> 0 <= x && x < y && y < ns1.len(),
                e <= dep_indices@.len(),
            decreases dep_indices@.len() - e,
        {
            proof {
                lemma_forward_edges_no_cycle(
                    dag_edge_set(self.dag),
                    dep_indices@[e as int] as int,
                    node_index as int,
                );
            }
            let ok = dag_add_edge(&mut self.dag, dep_indices[e], node_index, 1);
            if !ok {
                return Err(BuildError::CycleDetected);
            }
            e = e + 1;
        }
        proof {
            assert forall|i: int|
                    0 <= i < ns1.len() implies (#[trigger] ns1[i]).renderable() && ns1[i].hash
                    == Some(ns1[i].full_hash()) && ns1[i].inward_edges is Some by {
                if i < ns0.len() {
                    assert(ns1[i] == ns0[i]);
                } else {
                    assert(ns1[i] == dvh);
                    assert(dvh.renderable() == dv.renderable());
                    assert(dvh.full_hash() == dv.full_hash());
                }
            }
            assert forall|i: int, q: int|
                0 <= i < ns1.len() && 0 <= q < ns1[i].deps().len() implies #[trigger] spec_dep_resolved_earlier(
                ns1,
                i,
                q,
            ) by {
                if i < ns0.len() {
                    assert(ns1[i] == ns0[i]);
                    assert(ns0[i].deps()[q] == ns1[i].deps()[q]);
                    assert(spec_dep_resolved_earlier(ns0, i, q));
                    let j = choose|j: int|
                        0 <= j < i && (#[trigger] ns0[j]).hash == Some(ns0[i].deps()[q]);
                    assert(ns1[j] == ns0[j]);
                    assert(0 <= j < i && ns1[j].hash == Some(ns1[i].deps()[q]));
                } else {
                    assert(ns1[i] == dvh);
                    assert(dvh.deps() == dv.deps());
                    let j = dep_indices@[q] as int;
                    assert(ns0[j].hash == Some(dvh.deps()[q]));
                    assert(ns1[j] == ns0[j]);
                    assert(0 <= j < i && ns1[j].hash == Some(ns1[i].deps()[q]));
                }
            }
            assert forall|i: int, j: int|
                0 <= i < j < ns1.len() implies (#[trigger] ns1[i]).full_hash() != (
            #[trigger] ns1[j]).full_hash() by {
                if j == ns0.len() {
                    assert(ns1[i] == ns0[i]);
                    assert(ns1[j] == dvh);
                    if ns0[i].full_hash() == dvh.full_hash() {
                        assert(ns0[i].hash == Some(ns0[i].full_hash()));
                        assert(spec_contains_hash(ns0, dv.full_hash()));
                        assert(false);
                    }
                } else {
                    assert(ns1[i] == ns0[i]);
                    assert(ns1[j] == ns0[j]);
                }
            }
            assert(spec_nodes_wf(ns1));
        }
        Ok(hash)
    }

    /// Stores the resolved placeholder values in the derivation, computes
    /// its dependencies and content hash, and inserts it, returning the
    /// node's identity.  This is the whole lifecycle step the authoring
    /// layer takes once an evaluator has produced one literal value per
    /// placeholder.
    pub fn finalize(&mut self, derivation: Derivation, resolved: Vec<AttrValue>) -> (r: Result<
        String,
        BuildError,
    >)
        requires
            old(self).wf(),
            old(self).spec_nodes().len() < 0xFFFF_FFFFusize,
        ensures
            final(self).wf(),
            ({
                let dv = DerivationView {
                    interpolations: resolved@.map_values(|v: AttrValue| spec_literal(v)),
                    inward_edges: Some(spec_dep_hashes_seq(resolved@)),
                    ..derivation@
                };
                &&& final(self).spec_nodes() == spec_add_process(old(self).spec_nodes(), dv).1
                &&& match r {
                    Ok(h) => spec_add_process(old(self).spec_nodes(), dv).0 == Ok::<
                        Seq<char>,
                        BuildError,
                    >(h@),
                    Err(e) => spec_add_process(old(self).spec_nodes(), dv).0 == Err::<
                        Seq<char>,
                        BuildError,
                    >(e),
                }
            }),
    {
        let mut derivation = derivation;
        derivation.set_interpolations(resolved);
        self.add_process(derivation)
    }
}

/// Inserting an already-present resolved derivation a second time succeeds,
/// returns the same hash as the first insertion, and leaves the node
/// collection, in particular its length, unchanged.
pub proof fn lemma_idempotent_insertion(ns: Seq<DerivationView>, d: DerivationView)
    requires
        spec_add_process(ns, d).0 is Ok,
    ensures
        spec_add_process(spec_add_process(ns, d).1, d).0 == spec_add_process(ns, d).0,
        spec_add_process(spec_add_process(ns, d).1, d).1 == spec_add_process(ns, d).1,
        spec_add_process(spec_add_process(ns, d).1, d).1.len() == spec_add_process(ns, d).1.len(),
{
    let h = d.full_hash();
    let ns1 = spec_add_process(ns, d).1;
    if spec_contains_hash(ns, h) {
        assert(ns1 == ns);
    } else {
        let hashed = DerivationView { hash: Some(h), ..d };
        assert(ns1 == ns.push(hashed));
        assert(ns1[ns.len() as int].hash == Some(h));
        assert(spec_contains_hash(ns1, h));
    }
}

/// A derivation with a dependency hash unknown to the graph — the shape an
/// insertion that would close a reference cycle takes — is rejected with
/// `CycleDetected`, and the node collection, in particular its length, is
/// unchanged.
pub proof fn lemma_cycle_rejection(ns: Seq<DerivationView>, d: DerivationView)
    requires
        d.renderable(),
        !spec_contains_hash(ns, d.full_hash()),
        spec_missing_dep(ns, d.deps()),
    ensures
        spec_add_process(ns, d).0 == Err::<Seq<char>, BuildError>(BuildError::CycleDetected),
        spec_add_process(ns, d).1 == ns,
        spec_add_process(ns, d).1.len() == ns.len(),
{
}

} // verus!
