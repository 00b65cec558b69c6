//! The topological scheduler: converts the process graph into an ordered
//! sequence of levels, each a batch of derivations whose dependencies all
//! stand in earlier levels, so each level can run concurrently once every
//! earlier level has completed.
//!
//! The computation is Kahn-style and level-synchronous: a round collects
//! every node whose dependencies are already satisfied, using a snapshot
//! taken at the start of the round so nodes of one level never satisfy one
//! another.  Because the graph only admits nodes whose dependencies are
//! already present, the earliest unscheduled node is always runnable and a
//! round never comes up empty; an empty round would mean a cycle, a fatal
//! invariant violation.

use vstd::prelude::*;

use crate::derivation::DerivationView;
use crate::errors::BuildError;
use crate::process::spec_dep_resolved_earlier;
use crate::process::spec_nodes_wf;
use crate::process::ProcessGraph;

verus! {

/// Whether hashes are unique identities in `ns`: two nodes carrying the
/// same hash are the same node.
pub proof fn lemma_hash_unique(ns: Seq<DerivationView>, j1: int, j2: int)
    requires
        spec_nodes_wf(ns),
        0 <= j1 < ns.len(),
        0 <= j2 < ns.len(),
        ns[j1].hash == ns[j2].hash,
    ensures
        j1 == j2,
{
    if j1 < j2 {
        assert(ns[j1].full_hash() != ns[j2].full_hash());
    }
    if j2 < j1 {
        assert(ns[j1].full_hash() != ns[j2].full_hash());
    }
}

/// Whether node `i` appears somewhere in the levels.
pub open spec fn lv_contains(lv: Seq<Seq<usize>>, i: usize) -> bool {
    exists|k: int, p: int|
        0 <= k < lv.len() && 0 <= p < lv[k].len() && #[trigger] lv[k][p] == i
}

/// Whether node `i` appears in a level strictly before `bound`.
pub open spec fn lv_contains_before(lv: Seq<Seq<usize>>, i: usize, bound: int) -> bool {
    exists|k: int, p: int|
        0 <= k < bound && k < lv.len() && 0 <= p < lv[k].len() && #[trigger] lv[k][p] == i
}

/// Whether the `dk`-th dependency of node `i` belongs to a node that is
/// marked in `placed`.
pub open spec fn spec_dep_placed(
    ns: Seq<DerivationView>,
    placed: Seq<bool>,
    i: int,
    dk: int,
) -> bool {
    exists|j: int|
        0 <= j < ns.len() && (#[trigger] ns[j]).hash == Some(ns[i].deps()[dk]) && placed[j]
}

/// Whether every dependency of node `i` belongs to a node marked in
/// `placed`.
pub open spec fn spec_deps_placed(ns: Seq<DerivationView>, placed: Seq<bool>, i: int) -> bool {
    forall|dk: int|
        #![trigger spec_dep_placed(ns, placed, i, dk)]
        0 <= dk < ns[i].deps().len() ==> spec_dep_placed(ns, placed, i, dk)
}

/// Whether `selected` is dependency-closed: every dependency of an included
/// node belongs to an included node.
pub open spec fn spec_closed(ns: Seq<DerivationView>, selected: Seq<bool>) -> bool {
    forall|i: int, dk: int, j: int|
        #![trigger selected[i], ns[i].deps()[dk], ns[j].hash]
        0 <= i < ns.len() && selected[i] && 0 <= dk < ns[i].deps().len() && 0 <= j < ns.len()
            && ns[j].hash == Some(ns[i].deps()[dk]) ==> selected[j]
}

/// Whether the `dk`-th dependency of the node in level `k` at position `p`
/// belongs to a node that stands in a level strictly before `k`.
pub open spec fn spec_dep_in_earlier_level(
    ns: Seq<DerivationView>,
    lv: Seq<Seq<usize>>,
    k: int,
    p: int,
    dk: int,
) -> bool {
    exists|j: int|
        0 <= j < ns.len() && (#[trigger] ns[j]).hash == Some(ns[lv[k][p] as int].deps()[dk])
            && lv_contains_before(lv, j as usize, k)
}

/// Topological validity of the levels with respect to the included nodes:
/// the levels hold exactly the included nodes, each exactly once, and every
/// dependency of a node in level `k` stands in some level before `k`.
pub open spec fn spec_levels_wf(
    ns: Seq<DerivationView>,
    selected: Seq<bool>,
    lv: Seq<Seq<usize>>,
) -> bool {
    &&& forall|k: int, p: int|
        0 <= k < lv.len() && 0 <= p < lv[k].len() ==> (#[trigger] lv[k][p]) < ns.len()
            && selected[lv[k][p] as int]
    &&& forall|i: int| 0 <= i < ns.len() && #[trigger] selected[i] ==> lv_contains(lv, i as usize)
    &&& forall|k1: int, p1: int, k2: int, p2: int|
        #![trigger lv[k1][p1], lv[k2][p2]]
        0 <= k1 < lv.len() && 0 <= p1 < lv[k1].len() && 0 <= k2 < lv.len() && 0 <= p2
            < lv[k2].len() && !(k1 == k2 && p1 == p2) ==> lv[k1][p1] != lv[k2][p2]
    &&& forall|k: int, p: int, dk: int|
        #![trigger spec_dep_in_earlier_level(ns, lv, k, p, dk)]
        0 <= k < lv.len() && 0 <= p < lv[k].len() && 0 <= dk < ns[lv[k][p] as int].deps().len()
            ==> spec_dep_in_earlier_level(ns, lv, k, p, dk)
}

/// Appending a level: a node is in the extended levels when it is in the
/// old ones or in the new level.
proof fn lemma_lv_push_contains(lv: Seq<Seq<usize>>, level: Seq<usize>, x: usize)
    ensures
        lv_contains(lv.push(level), x) <==> (lv_contains(lv, x) || level.contains(x)),
{
    let lvn = lv.push(level);
    if lv_contains(lv, x) {
        let (k, p) = choose|k: int, p: int|
            0 <= k < lv.len() && 0 <= p < lv[k].len() && #[trigger] lv[k][p] == x;
        assert(lvn[k] == lv[k]);
        assert(lvn[k][p] == x);
    }
    if level.contains(x) {
        let p = choose|p: int| 0 <= p < level.len() && level[p] == x;
        assert(lvn[lv.len() as int] == level);
        assert(lvn[lv.len() as int][p] == x);
    }
    if lv_contains(lvn, x) {
        let (k, p) = choose|k: int, p: int|
            0 <= k < lvn.len() && 0 <= p < lvn[k].len() && #[trigger] lvn[k][p] == x;
        if k < lv.len() {
            assert(lv[k][p] == x);
        } else {
            assert(lvn[k] == level);
            assert(level[p] == x);
        }
    }
}

/// Membership in levels before `bound` does not change when a level is
/// appended after `bound`.
proof fn lemma_lv_push_before(lv: Seq<Seq<usize>>, level: Seq<usize>, x: usize, bound: int)
    requires
        bound <= lv.len(),
    ensures
        lv_contains_before(lv.push(level), x, bound) <==> lv_contains_before(lv, x, bound),
{
    let lvn = lv.push(level);
    if lv_contains_before(lv, x, bound) {
        let (k, p) = choose|k: int, p: int|
            0 <= k < bound && k < lv.len() && 0 <= p < lv[k].len() && #[trigger] lv[k][p] == x;
        assert(lvn[k] == lv[k]);
        assert(0 <= k < bound && k < lvn.len() && 0 <= p < lvn[k].len() && lvn[k][p] == x);
    }
    if lv_contains_before(lvn, x, bound) {
        let (k, p) = choose|k: int, p: int|
            0 <= k < bound && k < lvn.len() && 0 <= p < lvn[k].len() && #[trigger] lvn[k][p] == x;
        assert(lvn[k] == lv[k]);
        assert(0 <= k < bound && k < lv.len() && 0 <= p < lv[k].len() && lv[k][p] == x);
    }
}

/// A node in the levels is in some level before `lv.len()`.
proof fn lemma_lv_contains_to_before(lv: Seq<Seq<usize>>, x: usize)
    requires
        lv_contains(lv, x),
    ensures
        lv_contains_before(lv, x, lv.len() as int),
{
}

/// Whether every dependency of node `i` is marked in `placed`, checked
/// against the graph.
fn deps_all_placed(graph: &ProcessGraph, i: usize, placed: &Vec<bool>) -> (r: bool)
    requires
        graph.wf(),
        i < graph.spec_nodes().len(),
        placed@.len() == graph.spec_nodes().len(),
    ensures
        r == spec_deps_placed(graph.spec_nodes(), placed@, i as int),
{
    let ghost ns = graph.spec_nodes();
    let node = graph.node_at(i);
    let edges = match &node.inward_edges {
        Some(e) => e,
        None => {
            proof {
                assert(ns[i as int].inward_edges is Some);
            }
            vstd::pervasive::unreached()
        },
    };
    proof {
        assert(ns[i as int].deps() == edges.deep_view());
    }
    let mut dk: usize = 0;
    while dk < edges.len()
        invariant
            ns == graph.spec_nodes(),
            graph.wf(),
            i < ns.len(),
            placed@.len() == ns.len(),
            ns[i as int].deps() == edges.deep_view(),
            dk <= edges@.len(),
            edges@.len() == ns[i as int].deps().len(),
            forall|m: int|
                0 <= m < dk ==> #[trigger] spec_dep_placed(ns, placed@, i as int, m),
        decreases edges@.len() - dk,
    {
        proof {
            assert(spec_dep_resolved_earlier(ns, i as int, dk as int));
        }
        match graph.index_of_hash(edges[dk].as_str()) {
            None => {
                proof {
                    let j = choose|j: int|
                        0 <= j < i as int && (#[trigger] ns[j]).hash == Some(
                            ns[i as int].deps()[dk as int],
                        );
                    assert(crate::process::spec_contains_hash(ns, ns[i as int].deps()[dk as int]));
                }
                vstd::pervasive::unreached()
            },
            Some(j) => {
                if !placed[j] {
                    proof {
                        assert(!spec_dep_placed(ns, placed@, i as int, dk as int)) by {
                            if spec_dep_placed(ns, placed@, i as int, dk as int) {
                                let j2 = choose|j2: int|
                                    0 <= j2 < ns.len() && (#[trigger] ns[j2]).hash == Some(
                                        ns[i as int].deps()[dk as int],
                                    ) && placed@[j2];
                                lemma_hash_unique(ns, j as int, j2);
                            }
                        }
                    }
                    return false;
                }
            },
        }
        dk = dk + 1;
    }
    proof {
        assert forall|m: int|
            0 <= m < ns[i as int].deps().len() implies #[trigger] spec_dep_placed(
            ns,
            placed@,
            i as int,
            m,
        ) by {}
    }
    true
}

/// Kahn-style level computation over the nodes marked in `selected`.
/// Succeeds on every well-formed graph: because each node's dependencies
/// stand strictly earlier in insertion order, the earliest unscheduled node
/// is always runnable.  The deadlock arm remains as the fatal answer to a
/// state the graph invariant rules out.
#[verifier::loop_isolation(false)]
#[verifier::rlimit(100)]
pub(crate) fn kahn_levels(graph: &ProcessGraph, selected: &Vec<bool>) -> (r: Result<
    Vec<Vec<usize>>,
    BuildError,
>)
    requires
        graph.wf(),
        selected@.len() == graph.spec_nodes().len(),
        spec_closed(graph.spec_nodes(), selected@),
    ensures
        r is Ok,
        r matches Ok(lv) ==> spec_levels_wf(graph.spec_nodes(), selected@, lv.deep_view()),
{
    let ghost ns = graph.spec_nodes();
    let ghost sel = selected@;
    let n = graph.len();
    let mut placed: Vec<bool> = vec![false; n];
    let mut remaining: Vec<usize> = Vec::new();
    let mut i0: usize = 0;
    while i0 < n
        invariant
            i0 <= n,
            placed@.len() == n,
            forall|i: int| 0 <= i < n ==> !placed@[i],
            forall|p: int, q: int|
                0 <= p < q < remaining@.len() ==> remaining@[p] < remaining@[q],
            forall|p: int|
                0 <= p < remaining@.len() ==> (#[trigger] remaining@[p]) < i0 && sel[remaining@[p] as int],
            forall|i: int| 0 <= i < i0 && sel[i] ==> remaining@.contains(i as usize),
        decreases n - i0,
    {
        let ghost remb = remaining@;
        if selected[i0] {
            remaining.push(i0);
        }
        proof {
            assert forall|i: int| 0 <= i < i0 + 1 && sel[i] implies remaining@.contains(
                i as usize,
            ) by {
                if i < i0 {
                    let m = choose|m: int| 0 <= m < remb.len() && remb[m] == i as usize;
                    assert(remaining@[m] == i as usize);
                } else {
                    assert(remaining@.last() == i0);
                }
            }
        }
        i0 = i0 + 1;
    }
    let mut levels: Vec<Vec<usize>> = Vec::new();
    while remaining.len() > 0
        invariant
            placed@.len() == n,
            forall|p: int, q: int|
                0 <= p < q < remaining@.len() ==> remaining@[p] < remaining@[q],
            forall|p: int|
                0 <= p < remaining@.len() ==> (#[trigger] remaining@[p]) < n && sel[remaining@[p] as int]
                    && !placed@[remaining@[p] as int],
            forall|i: int| 0 <= i < n && sel[i] && !placed@[i] ==> remaining@.contains(i as usize),
            forall|i: int| 0 <= i < n && placed@[i] ==> sel[i],
            forall|i: int|
                0 <= i < n ==> (placed@[i] <==> lv_contains(levels.deep_view(), i as usize)),
            forall|k: int, p: int|
                0 <= k < levels.deep_view().len() && 0 <= p < levels.deep_view()[k].len() ==> (
                #[trigger] levels.deep_view()[k][p]) < n
                    && sel[levels.deep_view()[k][p] as int],
            forall|k1: int, p1: int, k2: int, p2: int|
                #![trigger levels.deep_view()[k1][p1], levels.deep_view()[k2][p2]]
                0 <= k1 < levels.deep_view().len() && 0 <= p1 < levels.deep_view()[k1].len() && 0
                    <= k2 < levels.deep_view().len() && 0 <= p2 < levels.deep_view()[k2].len() && !(
                k1 == k2 && p1 == p2) ==> levels.deep_view()[k1][p1] != levels.deep_view()[k2][p2],
            forall|k: int, p: int, dk: int|
                #![trigger spec_dep_in_earlier_level(ns, levels.deep_view(), k, p, dk)]
                0 <= k < levels.deep_view().len() && 0 <= p < levels.deep_view()[k].len() && 0 <= dk
                    < ns[levels.deep_view()[k][p] as int].deps().len()
                    ==> spec_dep_in_earlier_level(ns, levels.deep_view(), k, p, dk),
        decreases remaining@.len(),
    {
        let ghost lv0 = levels.deep_view();
        let ghost placed0 = placed@;
        let ghost rem0 = remaining@;
        let snapshot = placed.clone();
        proof {
            assert forall|i: int| 0 <= i < n implies snapshot@[i] == placed@[i] by {}
            assert(snapshot@ =~= placed@);
        }
        let mut level: Vec<usize> = Vec::new();
        let mut still: Vec<usize> = Vec::new();
        let mut t: usize = 0;
        while t < remaining.len()
            invariant
                snapshot@ == placed0,
                levels.deep_view() == lv0,
                remaining@ == rem0,
                t <= rem0.len(),
                placed@.len() == n,
                level@.len() + still@.len() == t,
                forall|i: int|
                    0 <= i < n ==> (placed@[i] <==> placed0[i] || level@.contains(i as usize)),
                forall|p: int, q: int| 0 <= p < q < level@.len() ==> level@[p] < level@[q],
                forall|p: int|
                    0 <= p < level@.len() ==> (#[trigger] level@[p]) < n && sel[level@[p] as int]
                        && !placed0[level@[p] as int] && spec_deps_placed(
                        ns,
                        placed0,
                        level@[p] as int,
                    ),
                forall|p: int, q: int| 0 <= p < q < still@.len() ==> still@[p] < still@[q],
                forall|p: int|
                    0 <= p < still@.len() ==> (#[trigger] still@[p]) < n && sel[still@[p] as int]
                        && !placed0[still@[p] as int] && !level@.contains(still@[p]),
                t < rem0.len() ==> forall|p: int|
                    0 <= p < level@.len() ==> (#[trigger] level@[p]) < rem0[t as int],
                t < rem0.len() ==> forall|p: int|
                    0 <= p < still@.len() ==> (#[trigger] still@[p]) < rem0[t as int],
                forall|m: int|
                    0 <= m < t ==> level@.contains(#[trigger] rem0[m]) || still@.contains(rem0[m]),
                t > 0 ==> level@.len() > 0,
            decreases rem0.len() - t,
        {
            let i = remaining[t];
            let ghost level_before = level@;
            let ghost still_before = still@;
            if deps_all_placed(graph, i, &snapshot) {
                level.push(i);
                placed.set(i, true);
                proof {
                    assert(level@ == level_before.push(i));
                    assert forall|ii: int|
                        0 <= ii < n implies (placed@[ii] <==> placed0[ii] || level@.contains(
                        ii as usize,
                    )) by {
                        if level@.contains(ii as usize) {
                            let p = choose|p: int|
                                0 <= p < level@.len() && level@[p] == ii as usize;
                            if p < level_before.len() {
                                assert(level_before[p] == ii as usize);
                                assert(level_before.contains(ii as usize));
                            }
                        }
                        if level_before.contains(ii as usize) {
                            let p = choose|p: int|
                                0 <= p < level_before.len() && level_before[p] == ii as usize;
                            assert(level@[p] == ii as usize);
                        }
                        if ii == i {
                            assert(level@.last() == i);
                        }
                    }
                    assert forall|p: int|
                        0 <= p < still@.len() implies (#[trigger] still@[p]) < n
                            && sel[still@[p] as int] && !placed0[still@[p] as int]
                            && !level@.contains(still@[p]) by {
                        assert(still@[p] < rem0[t as int]);
                        if level@.contains(still@[p]) {
                            let p2 = choose|p2: int|
                                0 <= p2 < level@.len() && level@[p2] == still@[p];
                            if p2 < level_before.len() {
                                assert(level_before.contains(still@[p]));
                            } else {
                                assert(level@[p2] == i);
                            }
                        }
                    }
                    assert forall|m: int|
                        0 <= m < t + 1 implies level@.contains(#[trigger] rem0[m])
                            || still@.contains(rem0[m]) by {
                        if m < t {
                            if level_before.contains(rem0[m]) {
                                let p = choose|p: int|
                                    0 <= p < level_before.len() && level_before[p] == rem0[m];
                                assert(level@[p] == rem0[m]);
                            }
                        } else {
                            assert(level@.last() == rem0[m]);
                        }
                    }
                }
            } else {
                proof {
                    if t == 0 {
                        assert forall|dk: int|
                            0 <= dk < ns[i as int].deps().len() implies #[trigger] spec_dep_placed(
                            ns,
                            placed0,
                            i as int,
                            dk,
                        ) by {
                            assert(spec_dep_resolved_earlier(ns, i as int, dk));
                            let j = choose|j: int|
                                0 <= j < i as int && (#[trigger] ns[j]).hash == Some(
                                    ns[i as int].deps()[dk],
                                );
                            assert(sel[i as int]);
                            assert(sel[j]);
                            if !placed0[j] {
                                assert(rem0.contains(j as usize));
                                let m = choose|m: int| 0 <= m < rem0.len() && rem0[m] == j as usize;
                                if m > 0 {
                                    assert(rem0[0] < rem0[m]);
                                }
                                assert(false);
                            }
                        }
                        assert(spec_deps_placed(ns, placed0, i as int));
                        assert(false);
                    }
                }
                still.push(i);
                proof {
                    assert forall|m: int|
                        0 <= m < t + 1 implies level@.contains(#[trigger] rem0[m])
                            || still@.contains(rem0[m]) by {
                        if m < t {
                            if still_before.contains(rem0[m]) {
                                let p = choose|p: int|
                                    0 <= p < still_before.len() && still_before[p] == rem0[m];
                                assert(still@[p] == rem0[m]);
                            }
                        } else {
                            assert(still@.last() == rem0[m]);
                        }
                    }
                    assert forall|p: int|
                        0 <= p < still@.len() implies (#[trigger] still@[p]) < n
                            && sel[still@[p] as int] && !placed0[still@[p] as int]
                            && !level@.contains(still@[p]) by {
                        if p < still_before.len() {
                            assert(still@[p] == still_before[p]);
                        } else {
                            assert(still@[p] == i);
                            if level@.contains(i) {
                                let p2 = choose|p2: int|
                                    0 <= p2 < level@.len() && level@[p2] == i;
                                assert(level@[p2] < rem0[t as int]);
                            }
                        }
                    }
                }
            }
            t = t + 1;
            proof {
                if t < rem0.len() {
                    assert(rem0[t - 1] < rem0[t as int]);
                }
            }
        }
        if level.len() == 0 {
            // A round with remaining nodes always collects the earliest of
            // them, so this arm is provably unreachable; it stays as the
            // fatal answer to a broken invariant.
            proof {
                assert(level@.len() > 0);
            }
            return Err(BuildError::Deadlock);
        }
        let ghost lvl = level@;
        levels.push(level);
        remaining = still;
        proof {
            let lv1 = levels.deep_view();
            assert(lv1 =~~= lv0.push(lvl));
            assert(forall|i: int| 0 <= i < n ==> (placed@[i] <==> placed0[i] || lvl.contains(i as usize)));
            assert(forall|i: int| 0 <= i < n ==> (placed0[i] <==> lv_contains(lv0, i as usize)));
            assert forall|i: int|
                0 <= i < n implies (placed@[i] <==> lv_contains(lv1, i as usize)) by {
                lemma_lv_push_contains(lv0, lvl, i as usize);
                assert(lv1 == lv0.push(lvl));
                assert(lv_contains(lv1, i as usize) == lv_contains(lv0.push(lvl), i as usize));
                assert(placed@[i] <==> placed0[i] || lvl.contains(i as usize));
            }
            assert forall|i: int|
                0 <= i < n && sel[i] && !placed@[i] implies remaining@.contains(i as usize) by {
                assert(!placed0[i]);
                assert(rem0.contains(i as usize));
                let m = choose|m: int| 0 <= m < rem0.len() && rem0[m] == i as usize;
                assert(level@.contains(rem0[m]) || still@.contains(rem0[m]));
                if lvl.contains(i as usize) {
                    assert(placed@[i]);
                }
            }
            assert forall|k1: int, p1: int, k2: int, p2: int|
                #![trigger lv1[k1][p1], lv1[k2][p2]]
                0 <= k1 < lv1.len() && 0 <= p1 < lv1[k1].len() && 0 <= k2 < lv1.len() && 0 <= p2
                    < lv1[k2].len() && !(k1 == k2 && p1 == p2) implies lv1[k1][p1]
                != lv1[k2][p2] by {
                if k1 < lv0.len() && k2 < lv0.len() {
                    assert(lv1[k1] == lv0[k1]);
                    assert(lv1[k2] == lv0[k2]);
                } else if k1 < lv0.len() && k2 == lv0.len() {
                    assert(lv1[k1] == lv0[k1]);
                    assert(lv1[k2] == lvl);
                    assert(lv_contains(lv0, lv0[k1][p1]));
                    assert(placed0[lv0[k1][p1] as int]);
                    assert(!placed0[lvl[p2] as int]);
                } else if k1 == lv0.len() && k2 < lv0.len() {
                    assert(lv1[k2] == lv0[k2]);
                    assert(lv1[k1] == lvl);
                    assert(lv_contains(lv0, lv0[k2][p2]));
                    assert(placed0[lv0[k2][p2] as int]);
                    assert(!placed0[lvl[p1] as int]);
                } else {
                    assert(lv1[k1] == lvl);
                    assert(lv1[k2] == lvl);
                    if p1 < p2 {
                        assert(lvl[p1] < lvl[p2]);
                    }
                    if p2 < p1 {
                        assert(lvl[p2] < lvl[p1]);
                    }
                }
            }
            assert forall|k: int, p: int, dk: int|
                0 <= k < lv1.len() && 0 <= p < lv1[k].len() && 0 <= dk
                    < ns[lv1[k][p] as int].deps().len() implies #[trigger] spec_dep_in_earlier_level(
                ns,
                lv1,
                k,
                p,
                dk,
            ) by {
                if k < lv0.len() {
                    assert(lv1[k] == lv0[k]);
                    assert(lv0[k][p] == lv1[k][p]);
                    assert(spec_dep_in_earlier_level(ns, lv0, k, p, dk));
                    let j = choose|j: int|
                        0 <= j < ns.len() && (#[trigger] ns[j]).hash == Some(
                            ns[lv0[k][p] as int].deps()[dk],
                        ) && lv_contains_before(lv0, j as usize, k);
                    lemma_lv_push_before(lv0, lvl, j as usize, k);
                } else {
                    assert(lv1[k] == lvl);
                    let x = lvl[p];
                    assert(spec_deps_placed(ns, placed0, x as int));
                    assert(spec_dep_placed(ns, placed0, x as int, dk));
                    let j = choose|j: int|
                        0 <= j < ns.len() && (#[trigger] ns[j]).hash == Some(
                            ns[x as int].deps()[dk],
                        ) && placed0[j];
                    assert(lv_contains(lv0, j as usize));
                    lemma_lv_contains_to_before(lv0, j as usize);
                    lemma_lv_push_before(lv0, lvl, j as usize, k);
                }
            }
        }
    }
    proof {
        assert forall|i: int|
            0 <= i < ns.len() && #[trigger] sel[i] implies lv_contains(
            levels.deep_view(),
            i as usize,
        ) by {
            assert(placed@[i]);
        }
    }
    Ok(levels)
}

/// Whether hash `h` appears somewhere in the hash levels.
pub open spec fn hash_lv_contains(lvh: Seq<Seq<Seq<char>>>, h: Seq<char>) -> bool {
    exists|k: int, p: int|
        0 <= k < lvh.len() && 0 <= p < lvh[k].len() && #[trigger] lvh[k][p] == h
}

/// Whether hash `h` appears in a hash level strictly before `bound`.
pub open spec fn hash_lv_contains_before(lvh: Seq<Seq<Seq<char>>>, h: Seq<char>, bound: int) -> bool {
    exists|k: int, p: int|
        0 <= k < bound && k < lvh.len() && 0 <= p < lvh[k].len() && #[trigger] lvh[k][p] == h
}

/// Topological validity of a run order, stated over content hashes: every
/// node's hash stands in some level, every level entry is some node's hash,
/// no hash appears twice, and every dependency of a node stands in a level
/// strictly before the node's own.
pub open spec fn spec_hash_levels_wf(ns: Seq<DerivationView>, lvh: Seq<Seq<Seq<char>>>) -> bool {
    &&& forall|j: int|
        0 <= j < ns.len() ==> hash_lv_contains(lvh, (#[trigger] ns[j]).full_hash())
    &&& forall|k: int, p: int|
        0 <= k < lvh.len() && 0 <= p < lvh[k].len() ==> crate::process::spec_contains_hash(
            ns,
            #[trigger] lvh[k][p],
        )
    &&& forall|k1: int, p1: int, k2: int, p2: int|
        #![trigger lvh[k1][p1], lvh[k2][p2]]
        0 <= k1 < lvh.len() && 0 <= p1 < lvh[k1].len() && 0 <= k2 < lvh.len() && 0 <= p2
            < lvh[k2].len() && !(k1 == k2 && p1 == p2) ==> lvh[k1][p1] != lvh[k2][p2]
    &&& forall|k: int, p: int, j: int, dk: int|
        #![trigger lvh[k][p], ns[j].deps()[dk]]
        0 <= k < lvh.len() && 0 <= p < lvh[k].len() && 0 <= j < ns.len() && ns[j].hash == Some(
            lvh[k][p],
        ) && 0 <= dk < ns[j].deps().len() ==> hash_lv_contains_before(lvh, ns[j].deps()[dk], k)
}

/// Replaces each node index with that node's content hash, level by level.
#[verifier::loop_isolation(false)]
fn hashes_of_levels(graph: &ProcessGraph, levels_idx: &Vec<Vec<usize>>) -> (out: Vec<Vec<String>>)
    requires
        graph.wf(),
        forall|k: int, p: int|
            0 <= k < levels_idx.deep_view().len() && 0 <= p < levels_idx.deep_view()[k].len()
                ==> (#[trigger] levels_idx.deep_view()[k][p]) < graph.spec_nodes().len(),
    ensures
        out.deep_view().len() == levels_idx.deep_view().len(),
        forall|k: int|
            0 <= k < levels_idx.deep_view().len() ==> (#[trigger] out.deep_view()[k]).len()
                == levels_idx.deep_view()[k].len(),
        forall|k: int, p: int|
            #![trigger out.deep_view()[k][p]]
            0 <= k < levels_idx.deep_view().len() && 0 <= p < levels_idx.deep_view()[k].len()
                ==> out.deep_view()[k][p] == graph.spec_nodes()[levels_idx.deep_view()[k][p] as int].full_hash(),
{
    let ghost ns = graph.spec_nodes();
    let ghost lvi = levels_idx.deep_view();
    let mut out: Vec<Vec<String>> = Vec::new();
    let mut k: usize = 0;
    while k < levels_idx.len()
        invariant
            out@.len() == k,
            k <= lvi.len(),
            forall|k2: int|
                0 <= k2 < k ==> (#[trigger] out.deep_view()[k2]).len() == lvi[k2].len(),
            forall|k2: int, p: int|
                #![trigger out.deep_view()[k2][p]]
                0 <= k2 < k && 0 <= p < lvi[k2].len() ==> out.deep_view()[k2][p]
                    == ns[lvi[k2][p] as int].full_hash(),
        decreases lvi.len() - k,
    {
        let level = &levels_idx[k];
        let ghost outb = out.deep_view();
        let mut row: Vec<String> = Vec::new();
        let mut p: usize = 0;
        while p < level.len()
            invariant
                out.deep_view() == outb,
                row@.len() == p,
                p <= level@.len(),
                level@ == lvi[k as int],
                forall|p2: int|
                    #![trigger row.deep_view()[p2]]
                    0 <= p2 < p ==> row.deep_view()[p2] == ns[lvi[k as int][p2] as int].full_hash(),
            decreases level@.len() - p,
        {
            let idx = level[p];
            proof {
                assert(lvi[k as int][p as int] < ns.len());
                assert(ns[idx as int].hash == Some(ns[idx as int].full_hash()));
            }
            let node = graph.node_at(idx);
            let ghost rowb = row.deep_view();
            row.push(node.hash());
            proof {
                assert(row.deep_view() =~~= rowb.push(ns[idx as int].full_hash()));
            }
            p = p + 1;
        }
        let ghost rowd = row.deep_view();
        proof {
            assert(rowd.len() == lvi[k as int].len());
        }
        out.push(row);
        proof {
            assert(out.deep_view() =~~= outb.push(rowd));
            assert forall|k2: int, p2: int|
                #![trigger out.deep_view()[k2][p2]]
                0 <= k2 < k + 1 && 0 <= p2 < lvi[k2].len() implies out.deep_view()[k2][p2]
                == ns[lvi[k2][p2] as int].full_hash() by {
                if k2 < k {
                    assert(out.deep_view()[k2] == outb[k2]);
                } else {
                    assert(out.deep_view()[k2] == rowd);
                }
            }
        }
        k = k + 1;
    }
    out
}

/// Drives the scheduler over the whole graph.
pub struct DerivationRunner {
    pub graph: ProcessGraph,
}

impl DerivationRunner {
    /// Computes the run order of the whole graph: an ordered sequence of
    /// levels of content hashes.  Every level's members may run
    /// concurrently once every earlier level has completed: each node
    /// appears in exactly one level, and all of its dependencies appear in
    /// strictly earlier levels.  On a well-formed graph this always
    /// succeeds.
    #[verifier::loop_isolation(false)]
    #[verifier::rlimit(60)]
    pub fn run_derivations(&self) -> (r: Result<Vec<Vec<String>>, BuildError>)
        requires
            self.graph.wf(),
        ensures
            r is Ok,
            r matches Ok(lv) ==> spec_hash_levels_wf(self.graph.spec_nodes(), lv.deep_view()),
    {
        let ghost ns = self.graph.spec_nodes();
        let n = self.graph.len();
        let all: Vec<bool> = vec![true; n];
        proof {
            assert(spec_closed(ns, all@));
        }
        let levels_idx = match kahn_levels(&self.graph, &all) {
            Ok(lv) => lv,
            Err(_) => {
                return Err(BuildError::Deadlock);
            },
        };
        let ghost lvi = levels_idx.deep_view();
        let out = hashes_of_levels(&self.graph, &levels_idx);
        let ghost lvh = out.deep_view();
        proof {
            assert(lvh.len() == lvi.len());
            assert forall|j: int|
                0 <= j < ns.len() implies hash_lv_contains(lvh, (#[trigger] ns[j]).full_hash()) by {
                assert(all@[j]);
                assert(lv_contains(lvi, j as usize));
                let (kk, pp) = choose|kk: int, pp: int|
                    0 <= kk < lvi.len() && 0 <= pp < lvi[kk].len() && #[trigger] lvi[kk][pp] == j as usize;
                assert(lvh[kk][pp] == ns[j].full_hash());
            }
            assert forall|kk: int, pp: int|
                0 <= kk < lvh.len() && 0 <= pp < lvh[kk].len() implies crate::process::spec_contains_hash(
                ns,
                #[trigger] lvh[kk][pp],
            ) by {
                let idx = lvi[kk][pp];
                assert(lvh[kk][pp] == ns[idx as int].full_hash());
                assert(ns[idx as int].hash == Some(ns[idx as int].full_hash()));
            }
            assert forall|k1: int, p1: int, k2: int, p2: int|
                #![trigger lvh[k1][p1], lvh[k2][p2]]
                0 <= k1 < lvh.len() && 0 <= p1 < lvh[k1].len() && 0 <= k2 < lvh.len() && 0 <= p2
                    < lvh[k2].len() && !(k1 == k2 && p1 == p2) implies lvh[k1][p1]
                != lvh[k2][p2] by {
                let i1 = lvi[k1][p1];
                let i2 = lvi[k2][p2];
                assert(lvi[k1][p1] != lvi[k2][p2]);
                assert(lvh[k1][p1] == ns[i1 as int].full_hash());
                assert(lvh[k2][p2] == ns[i2 as int].full_hash());
                if i1 < i2 {
                    assert(ns[i1 as int].full_hash() != ns[i2 as int].full_hash());
                }
                if i2 < i1 {
                    assert(ns[i2 as int].full_hash() != ns[i1 as int].full_hash());
                }
            }
            assert forall|kk: int, pp: int, j: int, dk: int|
                #![trigger lvh[kk][pp], ns[j].deps()[dk]]
                0 <= kk < lvh.len() && 0 <= pp < lvh[kk].len() && 0 <= j < ns.len() && ns[j].hash
                    == Some(lvh[kk][pp]) && 0 <= dk < ns[j].deps().len() implies hash_lv_contains_before(
                lvh,
                ns[j].deps()[dk],
                kk,
            ) by {
                let idx = lvi[kk][pp];
                assert(lvh[kk][pp] == ns[idx as int].full_hash());
                assert(ns[idx as int].hash == Some(ns[idx as int].full_hash()));
                lemma_hash_unique(ns, j, idx as int);
                assert(spec_dep_in_earlier_level(ns, lvi, kk, pp, dk));
                let j2 = choose|j2: int|
                    0 <= j2 < ns.len() && (#[trigger] ns[j2]).hash == Some(
                        ns[lvi[kk][pp] as int].deps()[dk],
                    ) && lv_contains_before(lvi, j2 as usize, kk);
                let (k3, p3) = choose|k3: int, p3: int|
                    0 <= k3 < kk && k3 < lvi.len() && 0 <= p3 < lvi[k3].len()
                        && #[trigger] lvi[k3][p3] == j2 as usize;
                assert(lvh[k3][p3] == ns[j2].full_hash());
                assert(ns[j2].hash == Some(ns[j2].full_hash()));
                assert(ns[j2].full_hash() == ns[j].deps()[dk]);
            }
        }
        Ok(out)
    }
}

/// How many entries of `s` are `false`.
pub open spec fn count_false(s: Seq<bool>) -> nat
    decreases s.len(),
{
    if s.len() == 0 {
        0
    } else {
        (if s[0] {
            0nat
        } else {
            1nat
        }) + count_false(s.drop_first())
    }
}

/// Marking a `false` entry `true` lowers the count by one.
proof fn lemma_count_false_update(s: Seq<bool>, i: int)
    requires
        0 <= i < s.len(),
        !s[i],
    ensures
        count_false(s.update(i, true)) == count_false(s) - 1,
    decreases s.len(),
{
    let su = s.update(i, true);
    if i == 0 {
        assert(su.drop_first() =~= s.drop_first());
    } else {
        assert(su.drop_first() =~= s.drop_first().update(i - 1, true));
        lemma_count_false_update(s.drop_first(), i - 1);
    }
}

/// The dependency edges of the graph, as index pairs: `(a, b)` when node
/// `b` carries the hash of one of node `a`'s dependencies.
pub open spec fn spec_dep_edges(ns: Seq<DerivationView>) -> Set<(int, int)> {
    Set::new(
        |pr: (int, int)|
            0 <= pr.0 < ns.len() && 0 <= pr.1 < ns.len() && exists|dk: int|
                0 <= dk < ns[pr.0].deps().len() && ns[pr.1].hash == Some(
                    #[trigger] ns[pr.0].deps()[dk],
                ),
    )
}

/// Whether building `a` needs `b`: `b` is `a` itself, or stands in `a`'s
/// transitive dependency closure.
pub open spec fn spec_needs(ns: Seq<DerivationView>, a: int, b: int) -> bool {
    crate::dag::spec_path_exists(spec_dep_edges(ns), a, b)
}

/// Needing is reflexive.
proof fn lemma_needs_self(ns: Seq<DerivationView>, a: int)
    ensures
        spec_needs(ns, a, a),
{
    let p = seq![a];
    assert(crate::dag::is_path(spec_dep_edges(ns), p));
    assert(p[0] == a && p.last() == a && p.len() >= 1);
}

/// Needing extends along a dependency edge.
proof fn lemma_needs_extend(ns: Seq<DerivationView>, a: int, b: int, c: int)
    requires
        spec_needs(ns, a, b),
        spec_dep_edges(ns).contains((b, c)),
    ensures
        spec_needs(ns, a, c),
{
    let edges = spec_dep_edges(ns);
    let p = choose|p: Seq<int>|
        crate::dag::is_path(edges, p) && p.len() >= 1 && p[0] == a && p.last() == b;
    let q = p.push(c);
    assert(crate::dag::is_path(edges, q)) by {
        assert forall|k: int| 0 <= k < q.len() - 1 implies edges.contains(
            (#[trigger] q[k], q[k + 1]),
        ) by {
            if k < p.len() - 1 {
                assert(q[k] == p[k]);
                assert(q[k + 1] == p[k + 1]);
            } else {
                assert(q[k] == p.last());
                assert(q[k + 1] == c);
            }
        }
    }
    assert(q[0] == a && q.last() == c && q.len() >= 1);
}

impl ProcessGraph {
    /// Marks every dependency of node `i` as selected, pushing the newly
    /// selected ones onto the frontier.
    #[verifier::loop_isolation(false)]
    #[verifier::rlimit(100)]
    fn expand_node(&self, i: usize, selected: &mut Vec<bool>, frontier: &mut Vec<usize>)
        requires
            self.wf(),
            i < self.spec_nodes().len(),
            old(selected)@.len() == self.spec_nodes().len(),
            forall|q: int|
                0 <= q < old(frontier)@.len() ==> (#[trigger] old(frontier)@[q])
                    < self.spec_nodes().len() && old(selected)@[old(frontier)@[q] as int],
        ensures
            final(selected)@.len() == old(selected)@.len(),
            forall|x: int|
                0 <= x < old(selected)@.len() && old(selected)@[x] ==> final(selected)@[x],
            forall|x: int|
                0 <= x < old(selected)@.len() && final(selected)@[x] && !old(selected)@[x]
                    ==> final(frontier)@.contains(x as usize) && spec_dep_edges(
                    self.spec_nodes(),
                ).contains((i as int, x)),
            forall|q: int|
                0 <= q < final(frontier)@.len() ==> (#[trigger] final(frontier)@[q])
                    < self.spec_nodes().len() && final(selected)@[final(frontier)@[q] as int],
            forall|q: int|
                0 <= q < old(frontier)@.len() ==> final(frontier)@[q] == old(frontier)@[q],
            final(frontier)@.len() >= old(frontier)@.len(),
            forall|dk: int, j: int|
                #![trigger self.spec_nodes()[i as int].deps()[dk], self.spec_nodes()[j].hash]
                0 <= dk < self.spec_nodes()[i as int].deps().len() && 0 <= j
                    < self.spec_nodes().len() && self.spec_nodes()[j].hash == Some(
                    self.spec_nodes()[i as int].deps()[dk],
                ) ==> final(selected)@[j],
            count_false(final(selected)@) <= count_false(old(selected)@),
            count_false(final(selected)@) == count_false(old(selected)@) ==> final(frontier)@
                == old(frontier)@,
    {
        let ghost ns = self.spec_nodes();
        let ghost n = ns.len();
        let node = self.node_at(i);
        let edges = match &node.inward_edges {
            Some(e) => e,
            None => {
                proof {
                    assert(ns[i as int].inward_edges is Some);
                }
                vstd::pervasive::unreached()
            },
        };
        proof {
            assert(ns[i as int].deps() == edges.deep_view());
        }
        let mut dk: usize = 0;
        while dk < edges.len()
            invariant
                dk <= edges@.len(),
                edges@.len() == ns[i as int].deps().len(),
                ns[i as int].deps() == edges.deep_view(),
                selected@.len() == n,
                forall|x: int| 0 <= x < n && old(selected)@[x] ==> selected@[x],
                forall|x: int|
                    0 <= x < n && selected@[x] && !old(selected)@[x] ==> frontier@.contains(
                        x as usize,
                    ) && spec_dep_edges(ns).contains((i as int, x)),
                forall|q: int|
                    0 <= q < frontier@.len() ==> (#[trigger] frontier@[q]) < n
                        && selected@[frontier@[q] as int],
                forall|q: int| 0 <= q < old(frontier)@.len() ==> frontier@[q] == old(frontier)@[q],
                frontier@.len() >= old(frontier)@.len(),
                forall|dk2: int, j: int|
                    #![trigger ns[i as int].deps()[dk2], ns[j].hash]
                    0 <= dk2 < dk && 0 <= j < n && ns[j].hash == Some(ns[i as int].deps()[dk2])
                        ==> selected@[j],
                count_false(selected@) <= count_false(old(selected)@),
                count_false(selected@) == count_false(old(selected)@) ==> frontier@ == old(
                    frontier,
                )@,
            decreases edges@.len() - dk,
        {
            proof {
                assert(spec_dep_resolved_earlier(ns, i as int, dk as int));
            }
            let j = match self.index_of_hash(edges[dk].as_str()) {
                None => {
                    proof {
                        let jj = choose|jj: int|
                            0 <= jj < i as int && (#[trigger] ns[jj]).hash == Some(
                                ns[i as int].deps()[dk as int],
                            );
                        assert(crate::process::spec_contains_hash(
                            ns,
                            ns[i as int].deps()[dk as int],
                        ));
                    }
                    vstd::pervasive::unreached()
                },
                Some(j) => j,
            };
            if !selected[j] {
                let ghost selb = selected@;
                let ghost frb = frontier@;
                selected.set(j, true);
                frontier.push(j);
                proof {
                    lemma_count_false_update(selb, j as int);
                    assert(spec_dep_edges(ns).contains((i as int, j as int)));
                    assert forall|x: int|
                        0 <= x < n && selected@[x] && !old(selected)@[x] implies frontier@.contains(
                        x as usize,
                    ) && spec_dep_edges(ns).contains((i as int, x)) by {
                        if x == j as int {
                            assert(frontier@.last() == j);
                        } else {
                            assert(selb[x] && !old(selected)@[x]);
                            let q = choose|q: int| 0 <= q < frb.len() && frb[q] == x as usize;
                            assert(frontier@[q] == x as usize);
                        }
                    }
                    assert forall|dk2: int, jx: int|
                        #![trigger ns[i as int].deps()[dk2], ns[jx].hash]
                        0 <= dk2 < dk + 1 && 0 <= jx < n && ns[jx].hash == Some(
                            ns[i as int].deps()[dk2],
                        ) implies selected@[jx] by {
                        if dk2 == dk {
                            lemma_hash_unique(ns, jx, j as int);
                        }
                    }
                }
            } else {
                proof {
                    assert forall|dk2: int, jx: int|
                        #![trigger ns[i as int].deps()[dk2], ns[jx].hash]
                        0 <= dk2 < dk + 1 && 0 <= jx < n && ns[jx].hash == Some(
                            ns[i as int].deps()[dk2],
                        ) implies selected@[jx] by {
                        if dk2 == dk {
                            lemma_hash_unique(ns, jx, j as int);
                        }
                    }
                }
            }
            dk = dk + 1;
        }
    }

    /// Marks the transitive dependency closure of the node at `target`,
    /// the node itself included.
    #[verifier::loop_isolation(false)]
    #[verifier::rlimit(100)]
    fn dep_closure(&self, target: usize) -> (selected: Vec<bool>)
        requires
            self.wf(),
            target < self.spec_nodes().len(),
        ensures
            selected@.len() == self.spec_nodes().len(),
            selected@[target as int],
            forall|i: int|
                0 <= i < self.spec_nodes().len() && #[trigger] selected@[i] ==> spec_needs(
                    self.spec_nodes(),
                    target as int,
                    i,
                ),
            spec_closed(self.spec_nodes(), selected@),
    {
        let ghost ns = self.spec_nodes();
        let n = self.len();
        let mut selected: Vec<bool> = vec![false; n];
        let mut frontier: Vec<usize> = Vec::new();
        selected.set(target, true);
        frontier.push(target);
        proof {
            lemma_needs_self(ns, target as int);
            assert(frontier@[0] == target);
            assert(frontier@.contains(target));
        }
        while frontier.len() > 0
            invariant
                selected@.len() == n,
                selected@[target as int],
                forall|q: int|
                    0 <= q < frontier@.len() ==> (#[trigger] frontier@[q]) < n
                        && selected@[frontier@[q] as int],
                forall|i: int|
                    0 <= i < n && #[trigger] selected@[i] ==> spec_needs(ns, target as int, i),
                forall|i: int, dk: int, j: int|
                    #![trigger selected@[i], ns[i].deps()[dk], ns[j].hash]
                    0 <= i < n && selected@[i] && !frontier@.contains(i as usize) && 0 <= dk
                        < ns[i].deps().len() && 0 <= j < n && ns[j].hash == Some(ns[i].deps()[dk])
                        ==> selected@[j],
            decreases count_false(selected@), frontier@.len(),
        {
            let ghost sel0 = selected@;
            let ghost fr0 = frontier@;
            let i = match frontier.pop() {
                Some(i) => i,
                None => vstd::pervasive::unreached(),
            };
            let ghost fr1 = frontier@;
            proof {
                assert(fr1 == fr0.drop_last());
                assert(spec_needs(ns, target as int, i as int));
            }
            self.expand_node(i, &mut selected, &mut frontier);
            proof {
                assert forall|x: int|
                    0 <= x < n && #[trigger] selected@[x] implies spec_needs(
                    ns,
                    target as int,
                    x,
                ) by {
                    if !sel0[x] {
                        lemma_needs_extend(ns, target as int, i as int, x);
                    }
                }
                assert forall|ii: int, dk2: int, j: int|
                    #![trigger selected@[ii], ns[ii].deps()[dk2], ns[j].hash]
                    0 <= ii < n && selected@[ii] && !frontier@.contains(ii as usize) && 0 <= dk2
                        < ns[ii].deps().len() && 0 <= j < n && ns[j].hash == Some(
                        ns[ii].deps()[dk2],
                    ) implies selected@[j] by {
                    if ii != i as int {
                        if sel0[ii] {
                            if fr0.contains(ii as usize) {
                                let q = choose|q: int|
                                    0 <= q < fr0.len() && fr0[q] == ii as usize;
                                assert(q < fr0.len() - 1);
                                assert(fr1[q] == ii as usize);
                                assert(frontier@[q] == ii as usize);
                                assert(false);
                            }
                        } else {
                            assert(frontier@.contains(ii as usize));
                            assert(false);
                        }
                    }
                }
            }
        }
        proof {
            assert(spec_closed(ns, selected@)) by {
                assert forall|i: int, dk: int, j: int|
                    #![trigger selected@[i], ns[i].deps()[dk], ns[j].hash]
                    0 <= i < ns.len() && selected@[i] && 0 <= dk < ns[i].deps().len() && 0 <= j
                        < ns.len() && ns[j].hash == Some(ns[i].deps()[dk]) implies selected@[j] by {
                    assert(!frontier@.contains(i as usize));
                }
            }
        }
        selected
    }

    /// Computes the run order for one derivation, named by its hash: the
    /// levels hold the derivation and its transitive dependency closure and
    /// nothing else, each node exactly once, with every dependency in a
    /// level strictly before its dependent.  Fails only when the hash
    /// belongs to no node of the graph.
    #[verifier::loop_isolation(false)]
    #[verifier::rlimit(100)]
    pub fn run_derivation(&self, derivation_hash: String) -> (r: Result<
        Vec<Vec<String>>,
        BuildError,
    >)
        requires
            self.wf(),
        ensures
            r is Ok <==> crate::process::spec_contains_hash(self.spec_nodes(), derivation_hash@),
            r is Err ==> r == Result::<Vec<Vec<String>>, BuildError>::Err(
                BuildError::UnknownDerivation,
            ),
            r matches Ok(lv) ==> ({
                let ns = self.spec_nodes();
                let lvh = lv.deep_view();
                &&& hash_lv_contains(lvh, derivation_hash@)
                &&& forall|k: int, p: int|
                    0 <= k < lvh.len() && 0 <= p < lvh[k].len()
                        ==> crate::process::spec_contains_hash(ns, #[trigger] lvh[k][p])
                &&& forall|k1: int, p1: int, k2: int, p2: int|
                    #![trigger lvh[k1][p1], lvh[k2][p2]]
                    0 <= k1 < lvh.len() && 0 <= p1 < lvh[k1].len() && 0 <= k2 < lvh.len() && 0
                        <= p2 < lvh[k2].len() && !(k1 == k2 && p1 == p2) ==> lvh[k1][p1]
                        != lvh[k2][p2]
                &&& forall|k: int, p: int, j: int, dk: int|
                    #![trigger lvh[k][p], ns[j].deps()[dk]]
                    0 <= k < lvh.len() && 0 <= p < lvh[k].len() && 0 <= j < ns.len() && ns[j].hash
                        == Some(lvh[k][p]) && 0 <= dk < ns[j].deps().len()
                        ==> hash_lv_contains_before(lvh, ns[j].deps()[dk], k)
                &&& forall|k: int, p: int, j: int, t0: int|
                    #![trigger lvh[k][p], ns[j].hash, ns[t0].hash]
                    0 <= k < lvh.len() && 0 <= p < lvh[k].len() && 0 <= j < ns.len() && 0 <= t0
                        < ns.len() && ns[j].hash == Some(lvh[k][p]) && ns[t0].hash == Some(
                        derivation_hash@,
                    ) ==> spec_needs(ns, t0, j)
            }),
    {
        let ghost ns = self.spec_nodes();
        let n = self.len();
        let target = match self.index_of_hash(derivation_hash.as_str()) {
            None => {
                return Err(BuildError::UnknownDerivation);
            },
            Some(j) => j,
        };
        let selected = self.dep_closure(target);
        let levels_idx = match kahn_levels(self, &selected) {
            Ok(lv) => lv,
            Err(_) => {
                return Err(BuildError::UnknownDerivation);
            },
        };
        let ghost lvi = levels_idx.deep_view();
        let out = hashes_of_levels(self, &levels_idx);
        let ghost lvh = out.deep_view();
        proof {
            assert(ns[target as int].hash == Some(ns[target as int].full_hash()));
            assert(ns[target as int].full_hash() == derivation_hash@);
            assert(hash_lv_contains(lvh, derivation_hash@)) by {
                assert(lv_contains(lvi, target));
                let (kk, pp) = choose|kk: int, pp: int|
                    0 <= kk < lvi.len() && 0 <= pp < lvi[kk].len() && #[trigger] lvi[kk][pp]
                        == target;
                assert(lvh[kk][pp] == ns[target as int].full_hash());
            }
            assert forall|kk: int, pp: int|
                0 <= kk < lvh.len() && 0 <= pp < lvh[kk].len() implies crate::process::spec_contains_hash(
                ns,
                #[trigger] lvh[kk][pp],
            ) by {
                let idx = lvi[kk][pp];
                assert(lvh[kk][pp] == ns[idx as int].full_hash());
                assert(ns[idx as int].hash == Some(ns[idx as int].full_hash()));
            }
            assert forall|k1: int, p1: int, k2: int, p2: int|
                #![trigger lvh[k1][p1], lvh[k2][p2]]
                0 <= k1 < lvh.len() && 0 <= p1 < lvh[k1].len() && 0 <= k2 < lvh.len() && 0 <= p2
                    < lvh[k2].len() && !(k1 == k2 && p1 == p2) implies lvh[k1][p1]
                != lvh[k2][p2] by {
                let i1 = lvi[k1][p1];
                let i2 = lvi[k2][p2];
                assert(lvi[k1][p1] != lvi[k2][p2]);
                assert(lvh[k1][p1] == ns[i1 as int].full_hash());
                assert(lvh[k2][p2] == ns[i2 as int].full_hash());
                if i1 < i2 {
                    assert(ns[i1 as int].full_hash() != ns[i2 as int].full_hash());
                }
                if i2 < i1 {
                    assert(ns[i2 as int].full_hash() != ns[i1 as int].full_hash());
                }
            }
            assert forall|kk: int, pp: int, j: int, dk: int|
                #![trigger lvh[kk][pp], ns[j].deps()[dk]]
                0 <= kk < lvh.len() && 0 <= pp < lvh[kk].len() && 0 <= j < ns.len() && ns[j].hash
                    == Some(lvh[kk][pp]) && 0 <= dk < ns[j].deps().len() implies hash_lv_contains_before(
                lvh,
                ns[j].deps()[dk],
                kk,
            ) by {
                let idx = lvi[kk][pp];
                assert(lvh[kk][pp] == ns[idx as int].full_hash());
                assert(ns[idx as int].hash == Some(ns[idx as int].full_hash()));
                lemma_hash_unique(ns, j, idx as int);
                assert(spec_dep_in_earlier_level(ns, lvi, kk, pp, dk));
                let j2 = choose|j2: int|
                    0 <= j2 < ns.len() && (#[trigger] ns[j2]).hash == Some(
                        ns[lvi[kk][pp] as int].deps()[dk],
                    ) && lv_contains_before(lvi, j2 as usize, kk);
                let (k3, p3) = choose|k3: int, p3: int|
                    0 <= k3 < kk && k3 < lvi.len() && 0 <= p3 < lvi[k3].len()
                        && #[trigger] lvi[k3][p3] == j2 as usize;
                assert(lvh[k3][p3] == ns[j2].full_hash());
                assert(ns[j2].hash == Some(ns[j2].full_hash()));
                assert(ns[j2].full_hash() == ns[j].deps()[dk]);
            }
            assert forall|kk: int, pp: int, j: int, t0: int|
                #![trigger lvh[kk][pp], ns[j].hash, ns[t0].hash]
                0 <= kk < lvh.len() && 0 <= pp < lvh[kk].len() && 0 <= j < ns.len() && 0 <= t0
                    < ns.len() && ns[j].hash == Some(lvh[kk][pp]) && ns[t0].hash == Some(
                    derivation_hash@,
                ) implies spec_needs(ns, t0, j) by {
                lemma_hash_unique(ns, t0, target as int);
                let idx = lvi[kk][pp];
                assert(lvh[kk][pp] == ns[idx as int].full_hash());
                assert(ns[idx as int].hash == Some(ns[idx as int].full_hash()));
                lemma_hash_unique(ns, j, idx as int);
                assert(selected@[idx as int]);
            }
        }
        Ok(out)
    }
}

} // verus!
