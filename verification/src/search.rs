//! The search that computes trust distances: the nearest node that is still
//! open is closed, and the edges that leave it are followed.

use vstd::prelude::*;
use vstd::utf8::encode_utf8;
use crev_lib::TrustDistanceParams;
use crate::distance::{
    cost_of_level, edge_cost, is_min_cost, is_trust_path, lemma_extend, lemma_min_cost_is,
    level_cost, path_cost, reachable_at, reaches, spec_distances, usable_edge,
};
use crate::graph::{GraphView, TrustGraph};
use crate::model::{id_before, lemma_bytes_before_transitive, Key};
use crate::table::{TrustDistances, TrustedId};

verus! {

/// What the search knows of each node: the least cost found so far, and
/// whether the node is closed.
pub(crate) struct Marks {
    pub(crate) dist: Vec<Option<u64>>,
    pub(crate) done: Vec<bool>,
}

/// What a search is run with: the place of the root, the costs, and for each
/// edge whether it can be followed.
pub(crate) struct Frame {
    pub(crate) root: int,
    pub(crate) params: TrustDistanceParams,
    pub(crate) usable: Seq<bool>,
}

/// No trust path to `k` costs less than `c`.
pub(crate) open spec fn lower_bound(
    g: GraphView,
    root: Key,
    params: TrustDistanceParams,
    k: Key,
    c: int,
) -> bool {
    forall|p: Seq<Key>| #[trigger] reaches(g, root, p, k) ==> path_cost(g, params, p) >= c
}

impl TrustGraph {
    /// The key of the node at the place `i`.
    pub(crate) open spec fn key_at(&self, i: int) -> Key {
        self.nodes[i].key()
    }

    /// The key of the root of the search.
    pub(crate) open spec fn root_key(&self, f: Frame) -> Key {
        self.nodes[f.root].key()
    }

    /// The cost of following the edge at the place `e`.
    pub(crate) open spec fn weight(&self, f: Frame, e: int) -> int {
        level_cost(f.params, self.edges[e].level) as int
    }

    /// The root is a node, and each edge is marked as usable exactly where
    /// it is a usable edge of the view.
    pub(crate) open spec fn frame_ok(&self, f: Frame) -> bool {
        &&& self.inner_wf()
        &&& 0 <= f.root < self.nodes.len()
        &&& f.usable.len() == self.edges.len()
        &&& forall|e: int|
            0 <= e < self.edges.len() ==> #[trigger] f.usable[e] == usable_edge(
                self.inner_view(),
                self.root_key(f),
                self.key_at(self.edges[e].from as int),
                self.key_at(self.edges[e].to as int),
            )
    }

    /// Every cost found is within the budget and is the cost of a trust path.
    pub(crate) open spec fn found_ok(&self, f: Frame, m: Marks) -> bool {
        forall|i: int|
            0 <= i < self.nodes.len() ==> ((#[trigger] m.dist[i]) matches Some(d) ==> d
                <= f.params.max_distance && reachable_at(
                self.inner_view(),
                self.root_key(f),
                f.params,
                self.key_at(i),
                d as nat,
            ))
    }

    /// The cost found for a closed node is the least there is.
    pub(crate) open spec fn closed_ok(&self, f: Frame, m: Marks) -> bool {
        forall|i: int|
            0 <= i < self.nodes.len() && #[trigger] m.done[i] ==> m.dist[i] is Some && lower_bound(
                self.inner_view(),
                self.root_key(f),
                f.params,
                self.key_at(i),
                m.dist[i]->0 as int,
            )
    }

    /// The edge at `e`, if it leaves a closed node, can be followed and stays
    /// within the budget, has been followed.
    pub(crate) open spec fn edge_ok(&self, f: Frame, m: Marks, e: int) -> bool {
        let a = self.edges[e].from as int;
        let b = self.edges[e].to as int;
        (m.done[a] && f.usable[e] && m.dist[a]->0 + self.weight(f, e) <= f.params.max_distance)
            ==> (m.dist[b] is Some && m.dist[b]->0 <= m.dist[a]->0 + self.weight(f, e))
    }

    /// Every edge has been followed, but for those that leave `cur` from the
    /// place `upto` on.
    pub(crate) open spec fn edges_ok(&self, f: Frame, m: Marks, cur: int, upto: int) -> bool {
        forall|e: int|
            0 <= e < self.edges.len() && !(self.edges[e].from == cur && e >= upto)
                ==> #[trigger] self.edge_ok(f, m, e)
    }

    /// No open node is nearer than a closed one.
    pub(crate) open spec fn order_ok(&self, m: Marks) -> bool {
        forall|i: int, j: int|
            0 <= i < self.nodes.len() && 0 <= j < self.nodes.len() && #[trigger] m.done[i] && !(
            #[trigger] m.done[j]) && m.dist[j] is Some ==> m.dist[i]->0 <= m.dist[j]->0
    }

    /// Before the root is closed nothing else has been found.
    pub(crate) open spec fn start_ok(&self, f: Frame, m: Marks) -> bool {
        &&& m.dist[f.root] == Some(0u64)
        &&& m.done[f.root] || forall|i: int|
            0 <= i < self.nodes.len() ==> !(#[trigger] m.done[i]) && (i != f.root ==> m.dist[i]
                is None)
    }

    /// What holds of the marks throughout a search, while the edges that
    /// leave `cur` are being followed and those before `upto` have been.
    pub(crate) open spec fn marks_ok(&self, f: Frame, m: Marks, cur: int, upto: int) -> bool {
        &&& self.frame_ok(f)
        &&& m.dist.len() == self.nodes.len()
        &&& m.done.len() == self.nodes.len()
        &&& self.found_ok(f, m)
        &&& self.closed_ok(f, m)
        &&& self.edges_ok(f, m, cur, upto)
        &&& self.order_ok(m)
        &&& self.start_ok(f, m)
    }

    /// What the edge at `e` stands for in the view.
    pub(crate) proof fn lemma_edge_meaning(&self, f: Frame, e: int)
        requires
            self.frame_ok(f),
            0 <= e < self.edges.len(),
        ensures
            0 <= self.edges[e].from < self.nodes.len(),
            0 <= self.edges[e].to < self.nodes.len(),
            self.weight(f, e) == edge_cost(
                self.inner_view(),
                f.params,
                self.key_at(self.edges[e].from as int),
                self.key_at(self.edges[e].to as int),
            ),
            self.weight(f, e) >= 0,
    {
        self.lemma_edge_in_view(e);
    }

    /// A usable edge of the view is an edge of the graph, marked as usable.
    pub(crate) proof fn lemma_edge_found(&self, f: Frame, a: int, kb: Key) -> (e: int)
        requires
            self.frame_ok(f),
            0 <= a < self.nodes.len(),
            usable_edge(self.inner_view(), self.root_key(f), self.key_at(a), kb),
        ensures
            0 <= e < self.edges.len(),
            self.edges[e].from == a,
            self.key_at(self.edges[e].to as int) == kb,
            f.usable[e],
            self.weight(f, e) == edge_cost(self.inner_view(), f.params, self.key_at(a), kb),
    {
        let ka = self.key_at(a);
        let e = choose|e: int| self.edge_joins(e, ka, kb);
        self.lemma_same_node(self.edges[e].from as int, a);
        self.lemma_edge_meaning(f, e);
        e
    }

    /// A path never costs less than the path without its last edge.
    pub(crate) proof fn lemma_prefix(&self, f: Frame, p: Seq<Key>)
        requires
            p.len() > 1,
            is_trust_path(self.inner_view(), self.root_key(f), p),
        ensures
            is_trust_path(self.inner_view(), self.root_key(f), p.drop_last()),
            usable_edge(self.inner_view(), self.root_key(f), p[p.len() - 2], p.last()),
            p.drop_last().last() == p[p.len() - 2],
            path_cost(self.inner_view(), f.params, p) == path_cost(
                self.inner_view(),
                f.params,
                p.drop_last(),
            ) + edge_cost(self.inner_view(), f.params, p[p.len() - 2], p.last()),
    {
    }

    /// While `u` is the nearest open node, a trust path either costs no less
    /// than what was found for `u`, or ends at a closed node.
    pub(crate) proof fn lemma_frontier(&self, f: Frame, m: Marks, u: int, p: Seq<Key>)
        requires
            self.marks_ok(f, m, -1, 0),
            0 <= u < self.nodes.len(),
            !m.done[u],
            m.dist[u] is Some,
            forall|j: int|
                0 <= j < self.nodes.len() && !m.done[j] && (#[trigger] m.dist[j]) is Some
                    ==> m.dist[u]->0 <= m.dist[j]->0,
            is_trust_path(self.inner_view(), self.root_key(f), p),
        ensures
            path_cost(self.inner_view(), f.params, p) >= m.dist[u]->0 || exists|t: int|
                #[trigger] self.is_node(t, p.last()) && m.done[t],
        decreases p.len(),
    {
        let g = self.inner_view();
        let rk = self.root_key(f);
        let du = m.dist[u]->0 as int;
        if p.len() == 1 {
            // The path is the root alone. Until the root is closed it is the
            // only node with a cost, and so it is `u`.
            if m.done[f.root] {
                assert(self.is_node(f.root, p.last()));
            }
        } else {
            let q = p.drop_last();
            let kb = p.last();
            self.lemma_prefix(f, p);
            self.lemma_frontier(f, m, u, q);
            if path_cost(g, f.params, q) < du {
                // `q` ends at a closed node `a`, whose cost is the least, and
                // the last edge of `p` has been followed from there: either
                // `p` is beyond the budget, or its end has a cost no greater
                // than that of `p` and is closed or no nearer than `u`.
                let a = choose|t: int| #[trigger] self.is_node(t, q.last()) && m.done[t];
                assert(reaches(g, rk, q, self.key_at(a)));
                let da = m.dist[a]->0 as int;
                let e = self.lemma_edge_found(f, a, kb);
                let b = self.edges[e].to as int;
                assert(self.edge_ok(f, m, e));
                if da + self.weight(f, e) <= f.params.max_distance {
                    if m.done[b] {
                        assert(self.is_node(b, p.last()));
                    }
                }
            }
        }
    }

    /// What was found for the nearest open node is the least cost of a trust
    /// path to it.
    pub(crate) proof fn lemma_nearest_is_least(&self, f: Frame, m: Marks, u: int)
        requires
            self.marks_ok(f, m, -1, 0),
            0 <= u < self.nodes.len(),
            !m.done[u],
            m.dist[u] is Some,
            forall|j: int|
                0 <= j < self.nodes.len() && !m.done[j] && (#[trigger] m.dist[j]) is Some
                    ==> m.dist[u]->0 <= m.dist[j]->0,
        ensures
            lower_bound(
                self.inner_view(),
                self.root_key(f),
                f.params,
                self.key_at(u),
                m.dist[u]->0 as int,
            ),
    {
        let g = self.inner_view();
        let rk = self.root_key(f);
        assert forall|p: Seq<Key>| #[trigger] reaches(g, rk, p, self.key_at(u)) implies path_cost(
            g,
            f.params,
            p,
        ) >= m.dist[u]->0 as int by {
            self.lemma_frontier(f, m, u, p);
            if exists|t: int| #[trigger] self.is_node(t, p.last()) && m.done[t] {
                let t = choose|t: int| #[trigger] self.is_node(t, p.last()) && m.done[t];
                self.lemma_same_node(t, u);
            }
        }
    }

    /// Once no open node has a cost, every trust path within the budget ends
    /// at a node whose cost was found, and costs no less.
    pub(crate) proof fn lemma_complete(&self, f: Frame, m: Marks, p: Seq<Key>) -> (t: int)
        requires
            self.marks_ok(f, m, -1, 0),
            forall|j: int|
                0 <= j < self.nodes.len() && (#[trigger] m.dist[j]) is Some ==> m.done[j],
            is_trust_path(self.inner_view(), self.root_key(f), p),
            path_cost(self.inner_view(), f.params, p) <= f.params.max_distance,
        ensures
            self.is_node(t, p.last()),
            m.dist[t] is Some,
            m.dist[t]->0 <= path_cost(self.inner_view(), f.params, p),
        decreases p.len(),
    {
        if p.len() == 1 {
            f.root
        } else {
            // The path without its last edge ends at a closed node, from
            // which that edge has been followed.
            let q = p.drop_last();
            self.lemma_prefix(f, p);
            let a = self.lemma_complete(f, m, q);
            let e = self.lemma_edge_found(f, a, p.last());
            assert(self.edge_ok(f, m, e));
            self.edges[e].to as int
        }
    }
}

/// How many nodes are still open.
pub(crate) open spec fn open_count(done: Seq<bool>) -> nat
    decreases done.len(),
{
    if done.len() == 0 {
        0
    } else {
        open_count(done.drop_last()) + if done.last() {
            0nat
        } else {
            1nat
        }
    }
}

/// Closing an open node leaves one open node less.
pub(crate) proof fn lemma_close(done: Seq<bool>, u: int)
    requires
        0 <= u < done.len(),
        !done[u],
    ensures
        open_count(done.update(u, true)) + 1 == open_count(done),
    decreases done.len(),
{
    let after = done.update(u, true);
    if u == done.len() - 1 {
        assert(after.drop_last() =~= done.drop_last());
    } else {
        assert(after.drop_last() =~= done.drop_last().update(u, true));
        lemma_close(done.drop_last(), u);
    }
}

/// The nearest open node for which a cost was found, if there is one. Of
/// several that are equally near, the one that comes first in the order of
/// identities.
fn nearest_open(graph: &TrustGraph, m: &Marks) -> (best: Option<usize>)
    requires
        m.dist.len() == graph.nodes.len(),
        m.done.len() == graph.nodes.len(),
    ensures
        match best {
            Some(u) => {
                &&& u < m.dist.len()
                &&& !m.done[u as int]
                &&& m.dist[u as int] is Some
                &&& forall|j: int|
                    0 <= j < m.dist.len() && !m.done[j] && (#[trigger] m.dist[j]) is Some
                        ==> m.dist[u as int]->0 <= m.dist[j]->0
                &&& forall|j: int|
                    0 <= j < m.dist.len() && !m.done[j] && (#[trigger] m.dist[j])
                        == m.dist[u as int] ==> !id_before(graph.key_at(j), graph.key_at(u as int))
            },
            None => forall|j: int|
                0 <= j < m.dist.len() && (#[trigger] m.dist[j]) is Some ==> m.done[j],
        },
{
    let mut best: Option<usize> = None;
    let mut least: u64 = 0;
    let mut i: usize = 0;
    while i < m.dist.len()
        invariant
            i <= m.dist.len(),
            m.dist.len() == graph.nodes.len(),
            m.done.len() == graph.nodes.len(),
            match best {
                Some(u) => {
                    &&& u < i
                    &&& !m.done[u as int]
                    &&& m.dist[u as int] == Some(least)
                    &&& forall|j: int|
                        0 <= j < i && !m.done[j] && (#[trigger] m.dist[j]) is Some ==> least
                            <= m.dist[j]->0
                    &&& forall|j: int|
                        0 <= j < i && !m.done[j] && (#[trigger] m.dist[j]) == Some(least)
                            ==> !id_before(graph.key_at(j), graph.key_at(u as int))
                },
                None => forall|j: int| 0 <= j < i && (#[trigger] m.dist[j]) is Some ==> m.done[j],
            },
        decreases m.dist.len() - i,
    {
        if !m.done[i] {
            match m.dist[i] {
                Some(d) => {
                    let nearer = match best {
                        None => true,
                        Some(u) => d < least || (d == least && graph.nodes[i].comes_before(
                            &graph.nodes[u],
                        )),
                    };
                    if nearer {
                        proof {
                            let ki = graph.key_at(i as int);
                            if best is Some && d == least {
                                let ku = graph.key_at(best->0 as int);
                                assert forall|j: int|
                                    0 <= j < i && !m.done[j] && (#[trigger] m.dist[j]) == Some(
                                        d,
                                    ) implies !id_before(graph.key_at(j), ki) by {
                                    if id_before(graph.key_at(j), ki) {
                                        lemma_bytes_before_transitive(
                                            encode_utf8(graph.key_at(j)),
                                            encode_utf8(ki),
                                            encode_utf8(ku),
                                        );
                                    }
                                }
                            }
                        }
                        best = Some(i);
                        least = d;
                    }
                },
                None => {},
            }
        }
        i += 1;
    }
    best
}

impl TrustGraph {
    /// For each edge, whether it can be followed in a search from `root`.
    fn usable_edges(&self, root: usize) -> (usable: Vec<bool>)
        requires
            self.inner_wf(),
            root < self.nodes.len(),
        ensures
            usable.len() == self.edges.len(),
            forall|e: int|
                0 <= e < self.edges.len() ==> #[trigger] usable[e] == usable_edge(
                    self.inner_view(),
                    self.key_at(root as int),
                    self.key_at(self.edges[e].from as int),
                    self.key_at(self.edges[e].to as int),
                ),
    {
        let mut usable: Vec<bool> = Vec::new();
        let mut e: usize = 0;
        while e < self.edges.len()
            invariant
                e <= self.edges.len(),
                usable.len() == e,
                self.inner_wf(),
                root < self.nodes.len(),
                forall|d: int|
                    0 <= d < e ==> #[trigger] usable[d] == usable_edge(
                        self.inner_view(),
                        self.key_at(root as int),
                        self.key_at(self.edges[d].from as int),
                        self.key_at(self.edges[d].to as int),
                    ),
            decreases self.edges.len() - e,
        {
            let a = self.edges[e].from;
            let b = self.edges[e].to;
            let refused = self.has_block(a, b);
            let shut_out = b != root && self.has_block(root, b);
            proof {
                self.lemma_edge_in_view(e as int);
                self.lemma_block_found(a as int, b as int);
                self.lemma_block_found(root as int, b as int);
                if b != root {
                    assert(self.key_at(b as int) != self.key_at(root as int)) by {
                        if self.key_at(b as int) == self.key_at(root as int) {
                            self.lemma_same_node(b as int, root as int);
                        }
                    }
                }
            }
            usable.push(!refused && !shut_out);
            e += 1;
        }
        usable
    }
}

/// Follows the edges that leave the node `u`, which has just been closed.
fn relax(
    graph: &TrustGraph,
    params: &TrustDistanceParams,
    usable: &Vec<bool>,
    m: &mut Marks,
    u: usize,
    Ghost(f): Ghost<Frame>,
)
    requires
        graph.marks_ok(f, *old(m), u as int, 0),
        f.params == *params,
        f.usable == usable@,
        u < graph.nodes.len(),
        old(m).done[u as int],
        forall|i: int|
            0 <= i < graph.nodes.len() && #[trigger] old(m).done[i] ==> old(m).dist[i]->0 <= old(
                m,
            ).dist[u as int]->0,
    ensures
        graph.marks_ok(f, *final(m), -1, 0),
        final(m).done == old(m).done,
{
    let from_root = match m.dist[u] {
        Some(d) => d,
        None => 0,
    };
    let mut e: usize = 0;
    while e < graph.edges.len()
        invariant
            e <= graph.edges.len(),
            graph.marks_ok(f, *m, u as int, e as int),
            f.params == *params,
            f.usable == usable@,
            u < graph.nodes.len(),
            m.done == old(m).done,
            m.done[u as int],
            m.dist[u as int] == Some(from_root),
            forall|i: int|
                0 <= i < graph.nodes.len() && #[trigger] m.done[i] ==> m.dist[i]->0 <= from_root,
        decreases graph.edges.len() - e,
    {
        let ghost before = *m;
        let v = graph.edges[e].to;
        let mut improved = false;
        let mut reached: u64 = 0;
        if graph.edges[e].from == u && usable[e] {
            let step = cost_of_level(params, graph.edges[e].level);
            match from_root.checked_add(step) {
                Some(total) => {
                    if total <= params.max_distance {
                        let better = match m.dist[v] {
                            Some(known) => total < known,
                            None => true,
                        };
                        if better {
                            improved = true;
                            reached = total;
                        }
                    }
                },
                None => {},
            }
        }
        proof {
            graph.lemma_edge_meaning(f, e as int);
        }
        if improved {
            m.dist.set(v, Some(reached));
            proof {
                graph.lemma_improved(f, before, *m, u as int, e as int);
            }
        }
        e += 1;
    }
}

impl TrustGraph {
    /// What one improvement over the edge at `e`, which leaves the closed
    /// node `u`, keeps true of the marks.
    pub(crate) proof fn lemma_improved(&self, f: Frame, before: Marks, after: Marks, u: int, e: int)
        requires
            self.marks_ok(f, before, u, e),
            0 <= e < self.edges.len(),
            0 <= u < self.nodes.len(),
            self.edges[e].from == u,
            f.usable[e],
            before.done[u],
            before.dist[u] is Some,
            forall|i: int|
                0 <= i < self.nodes.len() && #[trigger] before.done[i] ==> before.dist[i]->0
                    <= before.dist[u]->0,
            before.dist[u]->0 + self.weight(f, e) <= f.params.max_distance,
            before.dist[self.edges[e].to as int] matches Some(known) ==> before.dist[u]->0
                + self.weight(f, e) < known,
            after.done == before.done,
            after.dist@ == before.dist@.update(
                self.edges[e].to as int,
                Some((before.dist[u]->0 + self.weight(f, e)) as u64),
            ),
        ensures
            self.marks_ok(f, after, u, e + 1),
            after.dist[u] == before.dist[u],
    {
        let g = self.inner_view();
        let rk = self.root_key(f);
        let v = self.edges[e].to as int;
        let du = before.dist[u]->0 as int;
        self.lemma_edge_meaning(f, e);
        assert forall|i: int| 0 <= i < self.nodes.len() implies ((
        #[trigger] after.dist[i]) matches Some(d) ==> d <= f.params.max_distance && reachable_at(
            g,
            rk,
            f.params,
            self.key_at(i),
            d as nat,
        )) by {
            if i == v {
                // A trust path to `u` and the edge from `u` to `v` make a
                // trust path to `v`.
                let p = choose|p: Seq<Key>| #[trigger]
                    reaches(g, rk, p, self.key_at(u)) && path_cost(g, f.params, p) == du as nat;
                lemma_extend(g, rk, f.params, p, self.key_at(v));
            }
        }
        assert forall|d: int|
            0 <= d < self.edges.len() && !(self.edges[d].from == u && d >= e + 1)
            implies #[trigger] self.edge_ok(f, after, d) by {
            if d != e {
                assert(self.edge_ok(f, before, d));
            }
        }
    }
}

/// The least costs from the node `root`, each for a node that a trust path
/// within the budget ends at.
fn search(
    graph: &TrustGraph,
    params: &TrustDistanceParams,
    usable: &Vec<bool>,
    root: usize,
    Ghost(f): Ghost<Frame>,
) -> (m: Marks)
    requires
        graph.frame_ok(f),
        f.root == root,
        f.params == *params,
        f.usable == usable@,
    ensures
        graph.marks_ok(f, m, -1, 0),
        forall|j: int| 0 <= j < graph.nodes.len() && (#[trigger] m.dist[j]) is Some ==> m.done[j],
{
    let n = graph.nodes.len();
    let mut dist: Vec<Option<u64>> = Vec::new();
    let mut done: Vec<bool> = Vec::new();
    let mut i: usize = 0;
    while i < n
        invariant
            i <= n,
            dist.len() == i,
            done.len() == i,
            forall|j: int| 0 <= j < i ==> (#[trigger] dist[j]) is None,
            forall|j: int| 0 <= j < i ==> !(#[trigger] done[j]),
        decreases n - i,
    {
        dist.push(None);
        done.push(false);
        i += 1;
    }
    dist.set(root, Some(0));
    let mut m = Marks { dist, done };
    proof {
        let g = graph.inner_view();
        let rk = graph.root_key(f);
        let p = seq![rk];
        assert(reaches(g, rk, p, rk));
    }
    loop
        invariant
            graph.marks_ok(f, m, -1, 0),
            f.params == *params,
            f.usable == usable@,
        ensures
            graph.marks_ok(f, m, -1, 0),
            forall|j: int|
                0 <= j < graph.nodes.len() && (#[trigger] m.dist[j]) is Some ==> m.done[j],
        decreases open_count(m.done@),
    {
        let next = nearest_open(graph, &m);
        match next {
            None => {
                break ;
            },
            Some(u) => {
                let ghost before = m;
                proof {
                    graph.lemma_nearest_is_least(f, m, u as int);
                    lemma_close(m.done@, u as int);
                }
                m.done.set(u, true);
                proof {
                    graph.lemma_closed(f, before, m, u as int);
                }
                relax(graph, params, usable, &mut m, u, Ghost(f));
            },
        }
    }
    m
}

impl TrustGraph {
    /// What closing the nearest open node keeps true of the marks.
    pub(crate) proof fn lemma_closed(&self, f: Frame, before: Marks, after: Marks, u: int)
        requires
            self.marks_ok(f, before, -1, 0),
            0 <= u < self.nodes.len(),
            !before.done[u],
            before.dist[u] is Some,
            forall|j: int|
                0 <= j < self.nodes.len() && !before.done[j] && (#[trigger] before.dist[j]) is Some
                    ==> before.dist[u]->0 <= before.dist[j]->0,
            lower_bound(
                self.inner_view(),
                self.root_key(f),
                f.params,
                self.key_at(u),
                before.dist[u]->0 as int,
            ),
            after.dist == before.dist,
            after.done@ == before.done@.update(u, true),
        ensures
            self.marks_ok(f, after, u, 0),
            after.done[u],
            forall|i: int|
                0 <= i < self.nodes.len() && #[trigger] after.done[i] ==> after.dist[i]->0
                    <= after.dist[u]->0,
    {
        assert forall|d: int|
            0 <= d < self.edges.len() && !(self.edges[d].from == u && d >= 0)
            implies #[trigger] self.edge_ok(f, after, d) by {
            assert(self.edge_ok(f, before, d));
        }
    }
}

impl TrustGraph {
    /// The table that lists, in the order of the nodes, each node for which
    /// the search found a cost is the table of trust distances.
    pub(crate) proof fn lemma_table(
        &self,
        f: Frame,
        m: Marks,
        table: TrustDistances,
        origin: Seq<int>,
    )
        requires
            self.marks_ok(f, m, -1, 0),
            forall|j: int|
                0 <= j < self.nodes.len() && (#[trigger] m.dist[j]) is Some ==> m.done[j],
            origin.len() == table.entries.len(),
            forall|x: int|
                0 <= x < origin.len() ==> 0 <= (#[trigger] origin[x]) < self.nodes.len()
                    && table.entries[x].who.key() == self.key_at(origin[x]) && m.dist[origin[x]]
                    == Some(table.entries[x].distance),
            forall|x: int, y: int|
                0 <= x < y < origin.len() ==> (#[trigger] origin[x]) < (#[trigger] origin[y]),
            forall|j: int|
                0 <= j < self.nodes.len() && (#[trigger] m.dist[j]) is Some ==> exists|x: int|
                    0 <= x < origin.len() && #[trigger] origin[x] == j,
        ensures
            table.inner_wf(),
            table.inner_view() == spec_distances(self.inner_view(), self.root_key(f), f.params),
    {
        let g = self.inner_view();
        let rk = self.root_key(f);
        let want = spec_distances(g, rk, f.params);
        assert forall|x: int, y: int| 0 <= x < y < table.entries.len() implies (
        #[trigger] table.entries[x]).who.key() != (#[trigger] table.entries[y]).who.key() by {
            assert(self.nodes[origin[x]].key() != self.nodes[origin[y]].key());
        }
        assert forall|k: Key| table.listed(k) implies want.contains_key(k) && want[k]
            == table.inner_view()[k] by {
            let x = table.place(k);
            table.lemma_entry(x);
            let j = origin[x];
            let d = table.entries[x].distance;
            lemma_min_cost_is(g, rk, f.params, k, d as nat);
        }
        assert forall|k: Key| want.contains_key(k) implies table.listed(k) by {
            let p = choose|p: Seq<Key>| #[trigger]
                reaches(g, rk, p, k) && path_cost(g, f.params, p) <= f.params.max_distance;
            let t = self.lemma_complete(f, m, p);
            let x = choose|x: int| 0 <= x < origin.len() && #[trigger] origin[x] == t;
            assert(table.has(x, k));
        }
    }

    /// Where the graph does not hold the root, the root alone is a trust
    /// path.
    pub(crate) proof fn lemma_root_unknown(&self, root: Key, p: Seq<Key>)
        requires
            self.inner_wf(),
            !self.holds(root),
            is_trust_path(self.inner_view(), root, p),
        ensures
            p.len() == 1,
        decreases p.len(),
    {
        if p.len() > 1 {
            let q = p.drop_last();
            self.lemma_root_unknown(root, q);
            assert(q.last() == root) by {
                reveal_with_fuel(is_trust_path, 2);
            }
            let e = choose|e: int| self.edge_joins(e, root, p.last());
            assert(self.is_node(self.edges[e].from as int, root));
        }
    }
}

/// The trust distances from the node `root` of the graph.
pub(crate) fn trusted_from(graph: &TrustGraph, root: usize, params: &TrustDistanceParams) -> (table:
    TrustDistances)
    requires
        graph.inner_wf(),
        root < graph.nodes.len(),
    ensures
        table.inner_wf(),
        table.inner_view() == spec_distances(
            graph.inner_view(),
            graph.key_at(root as int),
            *params,
        ),
{
    let usable = graph.usable_edges(root);
    let ghost f = Frame { root: root as int, params: *params, usable: usable@ };
    let m = search(graph, params, &usable, root, Ghost(f));
    let mut entries: Vec<TrustedId> = Vec::new();
    let ghost mut origin: Seq<int> = Seq::empty();
    let mut i: usize = 0;
    while i < graph.nodes.len()
        invariant
            i <= graph.nodes.len(),
            m.dist.len() == graph.nodes.len(),
            origin.len() == entries.len(),
            forall|x: int|
                0 <= x < origin.len() ==> 0 <= (#[trigger] origin[x]) < i
                    && entries[x].who.key() == graph.key_at(origin[x]) && m.dist[origin[x]]
                    == Some(entries[x].distance),
            forall|x: int, y: int|
                0 <= x < y < origin.len() ==> (#[trigger] origin[x]) < (#[trigger] origin[y]),
            forall|j: int|
                0 <= j < i && (#[trigger] m.dist[j]) is Some ==> exists|x: int|
                    0 <= x < origin.len() && #[trigger] origin[x] == j,
        decreases graph.nodes.len() - i,
    {
        match m.dist[i] {
            Some(d) => {
                let ghost before = origin;
                entries.push(TrustedId { who: graph.nodes[i].clone(), distance: d });
                proof {
                    origin = origin.push(i as int);
                    assert forall|j: int| 0 <= j < i + 1 && (#[trigger] m.dist[j]) is Some implies
                        exists|x: int| 0 <= x < origin.len() && #[trigger] origin[x] == j by {
                        if j < i {
                            let x = choose|x: int| 0 <= x < before.len() && #[trigger] before[x] == j;
                            assert(origin[x] == j);
                        } else {
                            assert(origin[before.len() as int] == j);
                        }
                    }
                }
            },
            None => {},
        }
        i += 1;
    }
    let table = TrustDistances { entries };
    proof {
        graph.lemma_table(f, m, table, origin);
    }
    table
}

} // verus!
