//! From the proofs in force to the trust graph.

use vstd::prelude::*;
use crev_lib::TrustDistanceParams;
use crate::distance::{law_relaxation, level_cost, spec_distances};
use crate::graph::{GraphView, TrustGraph};
use crate::model::{Key, Proof, TrustLevel};
use crate::store::{distinct_keys, ProofStore};

verus! {

/// The graph with what `p` states of trust: a trust proof sets the level of
/// its edge, a distrust proof adds its pair, a review or a flag adds
/// nothing.
pub open spec fn with_statement(g: GraphView, p: Proof) -> GraphView {
    match p {
        Proof::Trust { from, to, level, .. } => g.with_trust(from.key(), to.key(), level),
        Proof::Distrust { from, to, .. } => g.with_distrust(from.key(), to.key()),
        _ => g,
    }
}

/// The trust graph of a sequence of proofs: the empty graph with the
/// statement of each proof in turn, so that of two trust proofs for one pair
/// the later sets the level.
pub open spec fn graph_of(s: Seq<Proof>) -> GraphView
    decreases s.len(),
{
    if s.len() == 0 {
        GraphView::empty()
    } else {
        with_statement(graph_of(s.drop_last()), s.last())
    }
}

/// `p` is a trust proof from `a` to `b`.
pub open spec fn states_trust(p: Proof, a: Key, b: Key) -> bool {
    p matches Proof::Trust { from, to, .. } && from.key() == a && to.key() == b
}

/// `p` is a distrust proof from `a` against `b`.
pub open spec fn states_distrust(p: Proof, a: Key, b: Key) -> bool {
    p matches Proof::Distrust { from, to, .. } && from.key() == a && to.key() == b
}

/// The level of a trust proof.
pub open spec fn stated_level(p: Proof) -> TrustLevel {
    match p {
        Proof::Trust { level, .. } => level,
        _ => TrustLevel::Low,
    }
}

/// The graph of a sequence of proofs has an edge exactly where a trust proof
/// states one, at the level of the last such proof, and a distrust pair
/// exactly where a distrust proof states one. Trust is never implied in the
/// other direction.
pub proof fn law_graph_of(s: Seq<Proof>, a: Key, b: Key)
    ensures
        graph_of(s).trust.contains_key((a, b)) <==> exists|i: int|
            0 <= i < s.len() && states_trust(#[trigger] s[i], a, b),
        graph_of(s).distrust.contains((a, b)) <==> exists|i: int|
            0 <= i < s.len() && states_distrust(#[trigger] s[i], a, b),
        forall|i: int|
            0 <= i < s.len() && states_trust(#[trigger] s[i], a, b) && (forall|j: int|
                i < j < s.len() ==> !states_trust(#[trigger] s[j], a, b)) ==> graph_of(s).trust[(
                a,
                b,
            )] == stated_level(s[i]),
    decreases s.len(),
{
    if s.len() > 0 {
        let r = s.drop_last();
        law_graph_of(r, a, b);
        if exists|i: int| 0 <= i < s.len() && states_trust(#[trigger] s[i], a, b) {
            let i = choose|i: int| 0 <= i < s.len() && states_trust(#[trigger] s[i], a, b);
            if i < r.len() {
                assert(states_trust(r[i], a, b));
            }
        }
        if exists|i: int| 0 <= i < s.len() && states_distrust(#[trigger] s[i], a, b) {
            let i = choose|i: int| 0 <= i < s.len() && states_distrust(#[trigger] s[i], a, b);
            if i < r.len() {
                assert(states_distrust(r[i], a, b));
            }
        }
        assert forall|i: int|
            0 <= i < s.len() && states_trust(#[trigger] s[i], a, b) && (forall|j: int|
                i < j < s.len() ==> !states_trust(#[trigger] s[j], a, b)) implies graph_of(
            s,
        ).trust[(a, b)] == stated_level(s[i]) by {
            if i < r.len() {
                assert(r[i] == s[i]);
            }
        }
    }
}

/// Where no two proofs have one issuer and one subject, nobody both trusts
/// and distrusts the same identity.
pub proof fn law_trust_or_distrust(s: Seq<Proof>, a: Key, b: Key)
    requires
        distinct_keys(s),
    ensures
        !(graph_of(s).trust.contains_key((a, b)) && graph_of(s).distrust.contains((a, b))),
{
    law_graph_of(s, a, b);
}

/// Over the graph of the proofs in force no distance can be made shorter by
/// one more edge: for every edge between two identities that have a
/// distance, that of the target is at most that of the source and the cost
/// of the edge.
pub proof fn law_relaxation_in_force(
    s: Seq<Proof>,
    root: Key,
    params: TrustDistanceParams,
    u: Key,
    v: Key,
)
    requires
        distinct_keys(s),
        spec_distances(graph_of(s), root, params).contains_key(u),
        spec_distances(graph_of(s), root, params).contains_key(v),
        graph_of(s).trust.contains_key((u, v)),
    ensures
        spec_distances(graph_of(s), root, params)[v] <= spec_distances(
            graph_of(s),
            root,
            params,
        )[u] + level_cost(params, graph_of(s).trust[(u, v)]),
{
    law_trust_or_distrust(s, u, v);
    law_relaxation(graph_of(s), root, params, u, v);
}

/// The trust graph of the proofs in force.
pub fn build(store: &ProofStore) -> (graph: TrustGraph)
    ensures
        graph.wf(),
        graph@ == graph_of(store@),
{
    let mut graph = TrustGraph::new();
    let mut i: usize = 0;
    while i < store.len()
        invariant
            i <= store@.len(),
            graph.wf(),
            graph@ == graph_of(store@.take(i as int)),
        decreases store@.len() - i,
    {
        proof {
            assert(store@.take(i + 1).drop_last() =~= store@.take(i as int));
        }
        match store.get(i) {
            Proof::Trust { from, to, level, .. } => {
                graph.add_trust(from, to, *level);
            },
            Proof::Distrust { from, to, .. } => {
                graph.add_distrust(from, to);
            },
            _ => {},
        }
        i += 1;
    }
    proof {
        assert(store@.take(store@.len() as int) =~= store@);
    }
    graph
}

} // verus!
