//! What the trust distance of an identity is, and the laws that follow.
//!
//! A trust path starts at the root and follows trust edges. An edge is not
//! followed where its source also distrusts its target, nor where the root
//! distrusts its target; the root itself is never shut out. The distance of
//! an identity is the least cost of a trust path that ends at it, and only
//! identities whose distance is within the budget have one. Distrust by an
//! identity without a distance counts for nothing, since no path goes on
//! from it.

use vstd::prelude::*;
use crev_lib::TrustDistanceParams;
use crate::graph::{GraphView, TrustGraph};
use crate::model::{Identity, Key, TrustLevel};
use crate::search::trusted_from;
use crate::table::{TrustDistances, TrustedId};

verus! {

/// The cost of following one edge of the given level.
pub open spec fn level_cost(params: TrustDistanceParams, level: TrustLevel) -> nat {
    match level {
        TrustLevel::High => params.high_trust_distance as nat,
        TrustLevel::Medium => params.medium_trust_distance as nat,
        TrustLevel::Low => params.low_trust_distance as nat,
    }
}

/// The cost of following one edge of the given level.
pub fn cost_of_level(params: &TrustDistanceParams, level: TrustLevel) -> (cost: u64)
    ensures
        cost == level_cost(*params, level),
{
    match level {
        TrustLevel::High => params.high_trust_distance,
        TrustLevel::Medium => params.medium_trust_distance,
        TrustLevel::Low => params.low_trust_distance,
    }
}

/// The root's distrust of another identity shuts that identity out.
pub open spec fn vetoed(g: GraphView, root: Key, k: Key) -> bool {
    k != root && g.distrust.contains((root, k))
}

/// A trust edge can be followed unless its source distrusts its target or the
/// root has shut the target out.
pub open spec fn usable_edge(g: GraphView, root: Key, a: Key, b: Key) -> bool {
    &&& g.trust.contains_key((a, b))
    &&& !g.distrust.contains((a, b))
    &&& !vetoed(g, root, b)
}

/// The cost of following the usable edge from `a` to `b`.
pub open spec fn edge_cost(g: GraphView, params: TrustDistanceParams, a: Key, b: Key) -> nat {
    level_cost(params, g.trust[(a, b)])
}

/// A trust path is the root alone, or a trust path and one more usable edge.
pub open spec fn is_trust_path(g: GraphView, root: Key, p: Seq<Key>) -> bool
    decreases p.len(),
{
    if p.len() == 0 {
        false
    } else if p.len() == 1 {
        p[0] == root
    } else {
        is_trust_path(g, root, p.drop_last()) && usable_edge(g, root, p[p.len() - 2], p.last())
    }
}

/// The sum of the costs of the edges of a path.
pub open spec fn path_cost(g: GraphView, params: TrustDistanceParams, p: Seq<Key>) -> nat
    decreases p.len(),
{
    if p.len() <= 1 {
        0
    } else {
        path_cost(g, params, p.drop_last()) + edge_cost(g, params, p[p.len() - 2], p.last())
    }
}

/// `p` is a trust path from the root to `k`.
pub open spec fn reaches(g: GraphView, root: Key, p: Seq<Key>, k: Key) -> bool {
    is_trust_path(g, root, p) && p.last() == k
}

/// Some trust path from the root to `k` costs exactly `c`.
pub open spec fn reachable_at(
    g: GraphView,
    root: Key,
    params: TrustDistanceParams,
    k: Key,
    c: nat,
) -> bool {
    exists|p: Seq<Key>| #[trigger] reaches(g, root, p, k) && path_cost(g, params, p) == c
}

/// Some trust path from the root to `k` costs no more than the budget.
pub open spec fn within_budget(
    g: GraphView,
    root: Key,
    params: TrustDistanceParams,
    k: Key,
) -> bool {
    exists|p: Seq<Key>| #[trigger]
        reaches(g, root, p, k) && path_cost(g, params, p) <= params.max_distance
}

/// `c` is the cost of some trust path to `k`, and no trust path to `k` costs
/// less.
pub open spec fn is_min_cost(
    g: GraphView,
    root: Key,
    params: TrustDistanceParams,
    k: Key,
    c: nat,
) -> bool {
    &&& reachable_at(g, root, params, k, c)
    &&& forall|p: Seq<Key>| #[trigger] reaches(g, root, p, k) ==> path_cost(g, params, p) >= c
}

/// The least cost of a trust path from the root to `k`.
pub open spec fn min_cost(g: GraphView, root: Key, params: TrustDistanceParams, k: Key) -> nat {
    choose|c: nat| is_min_cost(g, root, params, k, c)
}

/// The trust distances from `root`: each identity within the budget, with
/// the least cost of a trust path to it.
pub open spec fn spec_distances(g: GraphView, root: Key, params: TrustDistanceParams) -> Map<
    Key,
    nat,
> {
    Map::new(
        |k: Key| within_budget(g, root, params, k),
        |k: Key| min_cost(g, root, params, k),
    )
}

/// A trust path with one more usable edge is a trust path, and costs the
/// edge more.
pub proof fn lemma_extend(g: GraphView, root: Key, params: TrustDistanceParams, p: Seq<Key>, b: Key)
    requires
        is_trust_path(g, root, p),
        usable_edge(g, root, p.last(), b),
    ensures
        reaches(g, root, p.push(b), b),
        path_cost(g, params, p.push(b)) == path_cost(g, params, p) + edge_cost(
            g,
            params,
            p.last(),
            b,
        ),
{
    let q = p.push(b);
    assert(q.drop_last() =~= p);
}

/// The least cost, where there is one, is the only one.
pub proof fn lemma_min_cost_is(g: GraphView, root: Key, params: TrustDistanceParams, k: Key, c: nat)
    requires
        is_min_cost(g, root, params, k, c),
    ensures
        min_cost(g, root, params, k) == c,
{
}

/// Among the costs of the trust paths to an identity that has one, there is
/// a least.
pub proof fn lemma_min_cost_exists(
    g: GraphView,
    root: Key,
    params: TrustDistanceParams,
    k: Key,
    c: nat,
)
    requires
        reachable_at(g, root, params, k, c),
    ensures
        is_min_cost(g, root, params, k, min_cost(g, root, params, k)),
        min_cost(g, root, params, k) <= c,
    decreases c,
{
    if exists|p: Seq<Key>| #[trigger] reaches(g, root, p, k) && path_cost(g, params, p) < c {
        let p = choose|p: Seq<Key>| #[trigger]
            reaches(g, root, p, k) && path_cost(g, params, p) < c;
        let lower = path_cost(g, params, p);
        lemma_min_cost_exists(g, root, params, k, lower);
    } else {
        lemma_min_cost_is(g, root, params, k, c);
    }
}

/// The cost of a path does not depend on the budget.
pub proof fn lemma_cost_ignores_budget(
    g: GraphView,
    one: TrustDistanceParams,
    other: TrustDistanceParams,
    p: Seq<Key>,
)
    requires
        one.high_trust_distance == other.high_trust_distance,
        one.medium_trust_distance == other.medium_trust_distance,
        one.low_trust_distance == other.low_trust_distance,
    ensures
        path_cost(g, one, p) == path_cost(g, other, p),
    decreases p.len(),
{
    if p.len() > 1 {
        lemma_cost_ignores_budget(g, one, other, p.drop_last());
    }
}

/// The root is always at distance 0 from itself.
pub proof fn law_root_at_zero(g: GraphView, root: Key, params: TrustDistanceParams)
    ensures
        spec_distances(g, root, params).contains_key(root),
        spec_distances(g, root, params)[root] == 0,
{
    let p = seq![root];
    assert(reaches(g, root, p, root));
    lemma_min_cost_is(g, root, params, root, 0);
}

/// No distance can be made shorter by one more edge: where `u` trusts `v`
/// and does not also distrust it, and both have a distance, that of `v` is
/// at most that of `u` and the cost of the edge.
pub proof fn law_relaxation(g: GraphView, root: Key, params: TrustDistanceParams, u: Key, v: Key)
    requires
        spec_distances(g, root, params).contains_key(u),
        spec_distances(g, root, params).contains_key(v),
        g.trust.contains_key((u, v)),
        !g.distrust.contains((u, v)),
    ensures
        spec_distances(g, root, params)[v] <= spec_distances(g, root, params)[u] + level_cost(
            params,
            g.trust[(u, v)],
        ),
{
    lemma_distance_is_min(g, root, params, u);
    lemma_distance_is_min(g, root, params, v);
    lemma_not_vetoed(g, root, params, v);
    let du = min_cost(g, root, params, u);
    let p = choose|p: Seq<Key>| #[trigger] reaches(g, root, p, u) && path_cost(g, params, p) == du;
    lemma_extend(g, root, params, p, v);
}

/// An identity that can be had within the budget over one usable edge from
/// an identity with a distance has a distance itself.
pub proof fn law_edge_within_budget(
    g: GraphView,
    root: Key,
    params: TrustDistanceParams,
    u: Key,
    v: Key,
)
    requires
        spec_distances(g, root, params).contains_key(u),
        usable_edge(g, root, u, v),
        spec_distances(g, root, params)[u] + edge_cost(g, params, u, v) <= params.max_distance,
    ensures
        spec_distances(g, root, params).contains_key(v),
        spec_distances(g, root, params)[v] <= spec_distances(g, root, params)[u] + edge_cost(
            g,
            params,
            u,
            v,
        ),
{
    lemma_distance_is_min(g, root, params, u);
    let du = min_cost(g, root, params, u);
    let p = choose|p: Seq<Key>| #[trigger] reaches(g, root, p, u) && path_cost(g, params, p) == du;
    lemma_extend(g, root, params, p, v);
    lemma_distance_is_min(g, root, params, v);
}

/// Every distance but the root's comes over an edge: an identity with a
/// distance, other than the root, has it from some identity with a distance
/// and one usable edge, and that distance and the cost of the edge add up to
/// its own.
pub proof fn law_distance_comes_over_an_edge(
    g: GraphView,
    root: Key,
    params: TrustDistanceParams,
    v: Key,
)
    requires
        spec_distances(g, root, params).contains_key(v),
        v != root,
    ensures
        exists|u: Key| #[trigger]
            spec_distances(g, root, params).contains_key(u) && usable_edge(g, root, u, v)
                && spec_distances(g, root, params)[v] == spec_distances(g, root, params)[u]
                + edge_cost(g, params, u, v),
{
    lemma_distance_is_min(g, root, params, v);
    let dv = min_cost(g, root, params, v);
    let p = choose|p: Seq<Key>| #[trigger] reaches(g, root, p, v) && path_cost(g, params, p) == dv;
    let q = p.drop_last();
    let u = p[p.len() - 2];
    assert(reaches(g, root, q, u));
    lemma_distance_is_min(g, root, params, u);
    law_edge_within_budget(g, root, params, u, v);
}

/// A distance is the cost of a trust path, is within the budget, and is the
/// least there is.
pub proof fn lemma_distance_is_min(g: GraphView, root: Key, params: TrustDistanceParams, k: Key)
    requires
        within_budget(g, root, params, k),
    ensures
        is_min_cost(g, root, params, k, min_cost(g, root, params, k)),
        min_cost(g, root, params, k) <= params.max_distance,
        spec_distances(g, root, params).contains_key(k),
        spec_distances(g, root, params)[k] == min_cost(g, root, params, k),
{
    let p = choose|p: Seq<Key>| #[trigger]
        reaches(g, root, p, k) && path_cost(g, params, p) <= params.max_distance;
    let c = path_cost(g, params, p);
    lemma_min_cost_exists(g, root, params, k, c);
}

/// An identity with a distance is not one that the root has shut out.
pub proof fn lemma_not_vetoed(g: GraphView, root: Key, params: TrustDistanceParams, k: Key)
    requires
        within_budget(g, root, params, k),
    ensures
        !vetoed(g, root, k),
{
}

/// A larger budget keeps every identity that had a distance, at the same
/// distance; it can only add identities.
pub proof fn law_budget_monotone(
    g: GraphView,
    root: Key,
    small: TrustDistanceParams,
    large: TrustDistanceParams,
)
    requires
        small.high_trust_distance == large.high_trust_distance,
        small.medium_trust_distance == large.medium_trust_distance,
        small.low_trust_distance == large.low_trust_distance,
        small.max_distance <= large.max_distance,
    ensures
        forall|k: Key| #[trigger]
            spec_distances(g, root, small).contains_key(k) ==> spec_distances(
                g,
                root,
                large,
            ).contains_key(k) && spec_distances(g, root, large)[k] == spec_distances(
                g,
                root,
                small,
            )[k],
{
    assert forall|k: Key| #[trigger]
        spec_distances(g, root, small).contains_key(k) implies spec_distances(
        g,
        root,
        large,
    ).contains_key(k) && spec_distances(g, root, large)[k] == spec_distances(g, root, small)[k] by {
        lemma_distance_is_min(g, root, small, k);
        let c = min_cost(g, root, small, k);
        let p = choose|p: Seq<Key>| #[trigger]
            reaches(g, root, p, k) && path_cost(g, small, p) == c;
        lemma_cost_ignores_budget(g, small, large, p);
        assert forall|q: Seq<Key>| #[trigger] reaches(g, root, q, k) implies path_cost(
            g,
            large,
            q,
        ) >= c by {
            lemma_cost_ignores_budget(g, small, large, q);
        }
        lemma_min_cost_is(g, root, large, k, c);
    }
}

/// Whom the root distrusts has no distance, whatever trust paths lead there.
pub proof fn law_root_veto(g: GraphView, root: Key, params: TrustDistanceParams, x: Key)
    requires
        g.distrust.contains((root, x)),
        x != root,
    ensures
        !spec_distances(g, root, params).contains_key(x),
{
    if within_budget(g, root, params, x) {
        lemma_not_vetoed(g, root, params, x);
    }
}

/// The trust distances from `root` over `graph`: a search from the root that
/// always goes on from the nearest identity not yet settled, and that stops
/// at the budget. Of several identities that are equally near, the search
/// goes on from the one that comes first in the order of identities; the
/// table is the same whichever is taken.
pub fn distances(graph: &TrustGraph, root: &Identity, params: &TrustDistanceParams) -> (table:
    TrustDistances)
    requires
        graph.wf(),
    ensures
        table.wf(),
        table@ == spec_distances(graph@, root.key(), *params),
{
    proof {
        graph.lemma_inner();
    }
    let table = match graph.find_node(root) {
        Some(at) => trusted_from(graph, at, params),
        None => {
            let mut entries: Vec<TrustedId> = Vec::new();
            entries.push(TrustedId { who: root.clone(), distance: 0 });
            let alone = TrustDistances { entries };
            proof {
                let g = graph.inner_view();
                let rk = root.key();
                let want = spec_distances(g, rk, *params);
                law_root_at_zero(g, rk, *params);
                alone.lemma_entry(0);
                assert forall|k: Key| want.contains_key(k) implies alone.listed(k) by {
                    let p = choose|p: Seq<Key>| #[trigger]
                        reaches(g, rk, p, k) && path_cost(g, *params, p) <= params.max_distance;
                    graph.lemma_root_unknown(rk, p);
                }
            }
            alone
        },
    };
    proof {
        table.lemma_inner();
    }
    table
}

} // verus!
