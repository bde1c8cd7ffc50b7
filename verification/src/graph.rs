//! The trust graph: who trusts whom at which level, and who distrusts whom.

use vstd::prelude::*;
use crate::model::{Identity, Key, TrustLevel};

verus! {

/// What a trust graph says, apart from how it is stored.
pub struct GraphView {
    /// Every identity that a trust or distrust statement names.
    pub nodes: Set<Key>,
    /// The level of the one trust edge from the first identity to the second.
    pub trust: Map<(Key, Key), TrustLevel>,
    /// The pairs whose first identity distrusts the second.
    pub distrust: Set<(Key, Key)>,
}

impl GraphView {
    /// The graph without identities.
    pub open spec fn empty() -> GraphView {
        GraphView { nodes: Set::empty(), trust: Map::empty(), distrust: Set::empty() }
    }

    /// The graph with the edge from `a` to `b` set to `level`.
    pub open spec fn with_trust(self, a: Key, b: Key, level: TrustLevel) -> GraphView {
        GraphView {
            nodes: self.nodes.insert(a).insert(b),
            trust: self.trust.insert((a, b), level),
            distrust: self.distrust,
        }
    }

    /// The graph in which `a` also distrusts `b`.
    pub open spec fn with_distrust(self, a: Key, b: Key) -> GraphView {
        GraphView {
            nodes: self.nodes.insert(a).insert(b),
            trust: self.trust,
            distrust: self.distrust.insert((a, b)),
        }
    }
}

/// A trust edge between two nodes, each given by its place among the nodes.
#[derive(Debug)]
pub(crate) struct TrustEdge {
    pub(crate) from: usize,
    pub(crate) to: usize,
    pub(crate) level: TrustLevel,
}

/// A distrust pair between two nodes, each given by its place among the nodes.
#[derive(Debug)]
pub(crate) struct TrustBlock {
    pub(crate) from: usize,
    pub(crate) to: usize,
}

/// A directed graph of trust, rebuilt from the proofs whenever it is needed.
#[derive(Debug)]
pub struct TrustGraph {
    pub(crate) nodes: Vec<Identity>,
    pub(crate) edges: Vec<TrustEdge>,
    pub(crate) blocks: Vec<TrustBlock>,
}

impl TrustGraph {
    pub(crate) open spec fn is_node(&self, i: int, k: Key) -> bool {
        0 <= i < self.nodes.len() && self.nodes[i].key() == k
    }

    pub(crate) open spec fn holds(&self, k: Key) -> bool {
        exists|i: int| self.is_node(i, k)
    }

    pub(crate) open spec fn edge_joins(&self, e: int, a: Key, b: Key) -> bool {
        &&& 0 <= e < self.edges.len()
        &&& self.nodes[self.edges[e].from as int].key() == a
        &&& self.nodes[self.edges[e].to as int].key() == b
    }

    pub(crate) open spec fn linked(&self, a: Key, b: Key) -> bool {
        exists|e: int| self.edge_joins(e, a, b)
    }

    pub(crate) open spec fn edge_between(&self, a: Key, b: Key) -> int {
        choose|e: int| self.edge_joins(e, a, b)
    }

    pub(crate) open spec fn blocked(&self, a: Key, b: Key) -> bool {
        exists|c: int| self.block_joins(c, a, b)
    }

    pub(crate) open spec fn block_joins(&self, c: int, a: Key, b: Key) -> bool {
        &&& 0 <= c < self.blocks.len()
        &&& self.nodes[self.blocks[c].from as int].key() == a
        &&& self.nodes[self.blocks[c].to as int].key() == b
    }

    pub(crate) open spec fn inner_wf(&self) -> bool {
        &&& forall|i: int, j: int|
            0 <= i < j < self.nodes.len() ==> (#[trigger] self.nodes[i]).key() != (
            #[trigger] self.nodes[j]).key()
        &&& forall|e: int|
            0 <= e < self.edges.len() ==> (#[trigger] self.edges[e]).from < self.nodes.len()
                && self.edges[e].to < self.nodes.len()
        &&& forall|e: int, f: int|
            0 <= e < f < self.edges.len() ==> !((#[trigger] self.edges[e]).from == (
            #[trigger] self.edges[f]).from && self.edges[e].to == self.edges[f].to)
        &&& forall|c: int|
            0 <= c < self.blocks.len() ==> (#[trigger] self.blocks[c]).from < self.nodes.len()
                && self.blocks[c].to < self.nodes.len()
    }

    /// `self` has the edges and the distrust pairs of `before`, and its nodes
    /// in their places.
    pub(crate) open spec fn grown_from(&self, before: &TrustGraph) -> bool {
        &&& self.edges == before.edges
        &&& self.blocks == before.blocks
        &&& self.nodes.len() >= before.nodes.len()
        &&& forall|i: int|
            0 <= i < before.nodes.len() ==> (#[trigger] self.nodes[i]) == before.nodes[i]
    }

    /// Growing a graph by nodes changes neither what its edges join nor what
    /// its distrust pairs join.
    pub(crate) proof fn lemma_grown(&self, before: &TrustGraph)
        requires
            before.inner_wf(),
            self.grown_from(before),
        ensures
            forall|e: int, a: Key, b: Key| #[trigger]
                self.edge_joins(e, a, b) == before.edge_joins(e, a, b),
            forall|c: int, a: Key, b: Key| #[trigger]
                self.block_joins(c, a, b) == before.block_joins(c, a, b),
            forall|a: Key, b: Key| #[trigger] self.linked(a, b) == before.linked(a, b),
            forall|a: Key, b: Key| #[trigger] self.blocked(a, b) == before.blocked(a, b),
            forall|i: int, k: Key| before.is_node(i, k) ==> #[trigger] self.is_node(i, k),
    {
        assert forall|e: int, a: Key, b: Key| #[trigger]
            self.edge_joins(e, a, b) == before.edge_joins(e, a, b) by {}
        assert forall|c: int, a: Key, b: Key| #[trigger]
            self.block_joins(c, a, b) == before.block_joins(c, a, b) by {}
        assert forall|a: Key, b: Key| #[trigger] self.linked(a, b) == before.linked(a, b) by {
            if before.linked(a, b) {
                let e = choose|e: int| before.edge_joins(e, a, b);
                assert(self.edge_joins(e, a, b));
            }
        }
        assert forall|a: Key, b: Key| #[trigger] self.blocked(a, b) == before.blocked(a, b) by {
            if before.blocked(a, b) {
                let c = choose|c: int| before.block_joins(c, a, b);
                assert(self.block_joins(c, a, b));
            }
        }
    }

    pub(crate) open spec fn inner_view(&self) -> GraphView {
        GraphView {
            nodes: Set::new(|k: Key| self.holds(k)),
            trust: Map::new(
                |k: (Key, Key)| self.linked(k.0, k.1),
                |k: (Key, Key)| self.edges[self.edge_between(k.0, k.1)].level,
            ),
            distrust: Set::new(|k: (Key, Key)| self.blocked(k.0, k.1)),
        }
    }

    /// No identity is held twice, no pair has two edges, and every edge and
    /// every distrust pair joins identities that the graph holds.
    pub closed spec fn wf(&self) -> bool {
        self.inner_wf()
    }

    /// What the graph says: its identities, its edges and its distrust pairs.
    pub closed spec fn view(&self) -> GraphView {
        self.inner_view()
    }

    pub(crate) proof fn lemma_inner(&self)
        ensures
            self.wf() == self.inner_wf(),
            self@ == self.inner_view(),
    {
    }

    /// In a well-formed graph the edge at `e` is the only one between its
    /// ends, so the view has its level.
    pub(crate) proof fn lemma_edge_in_view(&self, e: int)
        requires
            self.inner_wf(),
            0 <= e < self.edges.len(),
        ensures
            self.inner_view().trust.contains_key(
                (self.nodes[self.edges[e].from as int].key(), self.nodes[self.edges[e].to as int].key()),
            ),
            self.inner_view().trust[(
                self.nodes[self.edges[e].from as int].key(),
                self.nodes[self.edges[e].to as int].key(),
            )] == self.edges[e].level,
    {
        let a = self.nodes[self.edges[e].from as int].key();
        let b = self.nodes[self.edges[e].to as int].key();
        assert(self.edge_joins(e, a, b));
        let f = self.edge_between(a, b);
        self.lemma_same_node(self.edges[e].from as int, self.edges[f].from as int);
        self.lemma_same_node(self.edges[e].to as int, self.edges[f].to as int);
    }

    /// Two places that hold one key are one place.
    pub(crate) proof fn lemma_same_node(&self, i: int, j: int)
        requires
            self.inner_wf(),
            0 <= i < self.nodes.len(),
            0 <= j < self.nodes.len(),
            self.nodes[i].key() == self.nodes[j].key(),
        ensures
            i == j,
    {
    }

    /// The graph without identities.
    pub fn new() -> (g: TrustGraph)
        ensures
            g.wf(),
            g@ == GraphView::empty(),
    {
        let g = TrustGraph { nodes: Vec::new(), edges: Vec::new(), blocks: Vec::new() };
        proof {
            assert(g.inner_view().nodes =~= Set::<Key>::empty());
            assert(g.inner_view().trust =~= Map::<(Key, Key), TrustLevel>::empty());
            assert(g.inner_view().distrust =~= Set::<(Key, Key)>::empty());
        }
        g
    }

    /// The place of the identity among the nodes, if the graph holds it.
    pub(crate) fn find_node(&self, who: &Identity) -> (at: Option<usize>)
        ensures
            match at {
                Some(i) => self.is_node(i as int, who.key()),
                None => forall|i: int| !self.is_node(i, who.key()),
            },
    {
        let mut i: usize = 0;
        while i < self.nodes.len()
            invariant
                i <= self.nodes.len(),
                forall|j: int| 0 <= j < i ==> !self.is_node(j, who.key()),
            decreases self.nodes.len() - i,
        {
            if self.nodes[i].same_as(who) {
                return Some(i);
            }
            i += 1;
        }
        None
    }

    /// The place of the identity among the nodes, after adding it if the
    /// graph did not hold it.
    fn intern(&mut self, who: &Identity) -> (at: usize)
        requires
            old(self).inner_wf(),
        ensures
            final(self).inner_wf(),
            final(self).grown_from(old(self)),
            final(self).is_node(at as int, who.key()),
            forall|k: Key| #[trigger] final(self).holds(k) <==> (k == who.key() || old(self).holds(k)),
    {
        match self.find_node(who) {
            Some(i) => i,
            None => {
                let at = self.nodes.len();
                self.nodes.push(who.clone());
                proof {
                    assert(self.is_node(at as int, who.key()));
                    assert forall|k: Key| #[trigger]
                        self.holds(k) <==> (k == who.key() || old(self).holds(k)) by {
                        if self.holds(k) {
                            let i = choose|i: int| self.is_node(i, k);
                            if i < at {
                                assert(old(self).is_node(i, k));
                            }
                        }
                        if old(self).holds(k) {
                            let i = choose|i: int| old(self).is_node(i, k);
                            assert(self.is_node(i, k));
                        }
                    }
                    assert forall|i: int, j: int| 0 <= i < j < self.nodes.len() implies (
                    #[trigger] self.nodes[i]).key() != (#[trigger] self.nodes[j]).key() by {
                        if j >= at {
                            assert(!old(self).is_node(i, who.key()));
                        }
                    }
                }
                at
            },
        }
    }

    /// The place of the edge between two nodes, if there is one.
    pub(crate) fn find_edge(&self, a: usize, b: usize) -> (at: Option<usize>)
        ensures
            match at {
                Some(e) => e < self.edges.len() && self.edges[e as int].from == a
                    && self.edges[e as int].to == b,
                None => forall|e: int|
                    0 <= e < self.edges.len() ==> !((#[trigger] self.edges[e]).from == a
                        && self.edges[e].to == b),
            },
    {
        let mut e: usize = 0;
        while e < self.edges.len()
            invariant
                e <= self.edges.len(),
                forall|f: int|
                    0 <= f < e ==> !((#[trigger] self.edges[f]).from == a && self.edges[f].to == b),
            decreases self.edges.len() - e,
        {
            if self.edges[e].from == a && self.edges[e].to == b {
                return Some(e);
            }
            e += 1;
        }
        None
    }

    /// Tells whether the first node distrusts the second.
    pub(crate) fn has_block(&self, a: usize, b: usize) -> (found: bool)
        ensures
            found == exists|c: int|
                0 <= c < self.blocks.len() && (#[trigger] self.blocks[c]).from == a
                    && self.blocks[c].to == b,
    {
        let mut c: usize = 0;
        while c < self.blocks.len()
            invariant
                c <= self.blocks.len(),
                forall|d: int|
                    0 <= d < c ==> !((#[trigger] self.blocks[d]).from == a && self.blocks[d].to
                        == b),
            decreases self.blocks.len() - c,
        {
            if self.blocks[c].from == a && self.blocks[c].to == b {
                return true;
            }
            c += 1;
        }
        false
    }

    /// Tells whether the block list holds the pair of the two nodes, which
    /// is whether the first distrusts the second.
    pub(crate) proof fn lemma_block_found(&self, a: int, b: int)
        requires
            self.inner_wf(),
            0 <= a < self.nodes.len(),
            0 <= b < self.nodes.len(),
        ensures
            self.inner_view().distrust.contains((self.nodes[a].key(), self.nodes[b].key())) == exists|
                c: int,
            |
                0 <= c < self.blocks.len() && (#[trigger] self.blocks[c]).from == a
                    && self.blocks[c].to == b,
    {
        let ka = self.nodes[a].key();
        let kb = self.nodes[b].key();
        if self.blocked(ka, kb) {
            let c = choose|c: int| self.block_joins(c, ka, kb);
            self.lemma_same_node(self.blocks[c].from as int, a);
            self.lemma_same_node(self.blocks[c].to as int, b);
        }
        if exists|c: int|
            0 <= c < self.blocks.len() && (#[trigger] self.blocks[c]).from == a
                && self.blocks[c].to == b {
            let c = choose|c: int|
                0 <= c < self.blocks.len() && (#[trigger] self.blocks[c]).from == a
                    && self.blocks[c].to == b;
            assert(self.block_joins(c, ka, kb));
        }
    }

    /// The level at which `from` trusts `to`, if the graph has that edge.
    pub fn trust_level(&self, from: &Identity, to: &Identity) -> (level: Option<TrustLevel>)
        requires
            self.wf(),
        ensures
            level == if self@.trust.contains_key((from.key(), to.key())) {
                Some(self@.trust[(from.key(), to.key())])
            } else {
                None
            },
    {
        let a = match self.find_node(from) {
            Some(a) => a,
            None => {
                proof {
                    if self.linked(from.key(), to.key()) {
                        let e = choose|e: int| self.edge_joins(e, from.key(), to.key());
                        assert(self.is_node(self.edges[e].from as int, from.key()));
                    }
                }
                return None;
            },
        };
        let b = match self.find_node(to) {
            Some(b) => b,
            None => {
                proof {
                    if self.linked(from.key(), to.key()) {
                        let e = choose|e: int| self.edge_joins(e, from.key(), to.key());
                        assert(self.is_node(self.edges[e].to as int, to.key()));
                    }
                }
                return None;
            },
        };
        match self.find_edge(a, b) {
            Some(e) => {
                proof {
                    self.lemma_edge_in_view(e as int);
                }
                Some(self.edges[e].level)
            },
            None => {
                proof {
                    if self.linked(from.key(), to.key()) {
                        let e = choose|e: int| self.edge_joins(e, from.key(), to.key());
                        self.lemma_same_node(self.edges[e].from as int, a as int);
                        self.lemma_same_node(self.edges[e].to as int, b as int);
                    }
                }
                None
            },
        }
    }

    /// Tells whether `from` distrusts `to`.
    pub fn distrusts(&self, from: &Identity, to: &Identity) -> (found: bool)
        requires
            self.wf(),
        ensures
            found == self@.distrust.contains((from.key(), to.key())),
    {
        let a = match self.find_node(from) {
            Some(a) => a,
            None => {
                proof {
                    if self.blocked(from.key(), to.key()) {
                        let c = choose|c: int| self.block_joins(c, from.key(), to.key());
                        assert(self.is_node(self.blocks[c].from as int, from.key()));
                    }
                }
                return false;
            },
        };
        let b = match self.find_node(to) {
            Some(b) => b,
            None => {
                proof {
                    if self.blocked(from.key(), to.key()) {
                        let c = choose|c: int| self.block_joins(c, from.key(), to.key());
                        assert(self.is_node(self.blocks[c].to as int, to.key()));
                    }
                }
                return false;
            },
        };
        proof {
            self.lemma_block_found(a as int, b as int);
        }
        self.has_block(a, b)
    }

    /// Tells whether some trust or distrust statement names the identity.
    pub fn names(&self, who: &Identity) -> (found: bool)
        ensures
            found == self@.nodes.contains(who.key()),
    {
        self.find_node(who).is_some()
    }

    /// Records that `from` trusts `to` at `level`, in place of any level
    /// recorded for the pair before.
    pub fn add_trust(&mut self, from: &Identity, to: &Identity, level: TrustLevel)
        requires
            old(self).wf(),
        ensures
            final(self).wf(),
            final(self)@ == old(self)@.with_trust(from.key(), to.key(), level),
    {
        let a = self.intern(from);
        let ghost first = *self;
        let b = self.intern(to);
        let ghost mid = *self;
        let found = self.find_edge(a, b);
        match found {
            Some(e) => {
                self.edges.set(e, TrustEdge { from: a, to: b, level });
            },
            None => {
                self.edges.push(TrustEdge { from: a, to: b, level });
            },
        }
        proof {
            let at: int = match found {
                Some(e) => e as int,
                None => mid.edges.len() as int,
            };
            first.lemma_grown(old(self));
            mid.lemma_grown(&first);
            mid.lemma_grown(old(self));
            self.lemma_set_edge(&mid, old(self), at, from.key(), to.key());
        }
    }

    /// What setting or adding one edge does to the view.
    proof fn lemma_set_edge(&self, mid: &TrustGraph, before: &TrustGraph, at: int, ka: Key, kb: Key)
        requires
            before.inner_wf(),
            mid.inner_wf(),
            mid.grown_from(before),
            forall|k: Key| #[trigger] mid.holds(k) <==> (k == ka || k == kb || before.holds(k)),
            self.nodes == mid.nodes,
            self.blocks == mid.blocks,
            0 <= at <= mid.edges.len(),
            self.edges.len() == if at == mid.edges.len() {
                mid.edges.len() + 1
            } else {
                mid.edges.len() as int
            },
            forall|e: int| 0 <= e < mid.edges.len() && e != at ==> self.edges[e] == mid.edges[e],
            mid.is_node(self.edges[at].from as int, ka),
            mid.is_node(self.edges[at].to as int, kb),
            at < mid.edges.len() ==> mid.edges[at].from == self.edges[at].from && mid.edges[at].to
                == self.edges[at].to,
            forall|e: int|
                0 <= e < mid.edges.len() && e != at ==> !((#[trigger] mid.edges[e]).from
                    == self.edges[at].from && mid.edges[e].to == self.edges[at].to),
        ensures
            self.inner_wf(),
            self.inner_view() == before.inner_view().with_trust(ka, kb, self.edges[at].level),
    {
        mid.lemma_grown(before);
        assert(self.edge_joins(at, ka, kb));
        let want = before.inner_view().with_trust(ka, kb, self.edges[at].level);
        let got = self.inner_view();
        assert forall|k: Key| got.nodes.contains(k) == want.nodes.contains(k) by {
            assert(self.holds(k) == mid.holds(k)) by {
                if self.holds(k) {
                    let i = choose|i: int| self.is_node(i, k);
                    assert(mid.is_node(i, k));
                }
                if mid.holds(k) {
                    let i = choose|i: int| mid.is_node(i, k);
                    assert(self.is_node(i, k));
                }
            }
        }
        assert(got.nodes =~= want.nodes);
        assert forall|k: (Key, Key)| got.distrust.contains(k) == want.distrust.contains(k) by {
            if self.blocked(k.0, k.1) {
                let c = choose|c: int| self.block_joins(c, k.0, k.1);
                assert(mid.block_joins(c, k.0, k.1));
            }
            if mid.blocked(k.0, k.1) {
                let c = choose|c: int| mid.block_joins(c, k.0, k.1);
                assert(self.block_joins(c, k.0, k.1));
            }
        }
        assert(got.distrust =~= want.distrust);
        assert forall|k: (Key, Key)| got.trust.contains_key(k) == want.trust.contains_key(k) by {
            if self.linked(k.0, k.1) {
                let e = choose|e: int| self.edge_joins(e, k.0, k.1);
                if e != at {
                    assert(mid.edge_joins(e, k.0, k.1));
                }
            }
            if mid.linked(k.0, k.1) {
                let e = choose|e: int| mid.edge_joins(e, k.0, k.1);
                if e != at {
                    assert(self.edge_joins(e, k.0, k.1));
                }
            }
        }
        assert forall|k: (Key, Key)| got.trust.contains_key(k) implies got.trust[k]
            == want.trust[k] by {
            if k == (ka, kb) {
                self.lemma_edge_in_view(at);
            } else {
                let e = before.edge_between(k.0, k.1);
                if e == at {
                    mid.lemma_same_node(mid.edges[e].from as int, self.edges[at].from as int);
                    mid.lemma_same_node(mid.edges[e].to as int, self.edges[at].to as int);
                }
                self.lemma_edge_in_view(e);
            }
        }
        assert(got.trust =~= want.trust);
    }

    /// Records that `from` distrusts `to`.
    pub fn add_distrust(&mut self, from: &Identity, to: &Identity)
        requires
            old(self).wf(),
        ensures
            final(self).wf(),
            final(self)@ == old(self)@.with_distrust(from.key(), to.key()),
    {
        let a = self.intern(from);
        let ghost first = *self;
        let b = self.intern(to);
        let ghost mid = *self;
        self.blocks.push(TrustBlock { from: a, to: b });
        proof {
            first.lemma_grown(old(self));
            mid.lemma_grown(&first);
            self.lemma_push_block(&mid, old(self), from.key(), to.key());
        }
    }

    /// What adding one distrust pair does to the view.
    proof fn lemma_push_block(&self, mid: &TrustGraph, before: &TrustGraph, ka: Key, kb: Key)
        requires
            before.inner_wf(),
            mid.inner_wf(),
            mid.grown_from(before),
            forall|k: Key| #[trigger] mid.holds(k) <==> (k == ka || k == kb || before.holds(k)),
            self.nodes == mid.nodes,
            self.edges == mid.edges,
            self.blocks.len() == mid.blocks.len() + 1,
            forall|c: int| 0 <= c < mid.blocks.len() ==> self.blocks[c] == mid.blocks[c],
            mid.is_node(self.blocks[mid.blocks.len() as int].from as int, ka),
            mid.is_node(self.blocks[mid.blocks.len() as int].to as int, kb),
        ensures
            self.inner_wf(),
            self.inner_view() == before.inner_view().with_distrust(ka, kb),
    {
        let at = mid.blocks.len() as int;
        mid.lemma_grown(before);
        assert(self.block_joins(at, ka, kb));
        let want = before.inner_view().with_distrust(ka, kb);
        let got = self.inner_view();
        assert forall|k: Key| got.nodes.contains(k) == want.nodes.contains(k) by {
            assert(self.holds(k) == mid.holds(k)) by {
                if self.holds(k) {
                    let i = choose|i: int| self.is_node(i, k);
                    assert(mid.is_node(i, k));
                }
                if mid.holds(k) {
                    let i = choose|i: int| mid.is_node(i, k);
                    assert(self.is_node(i, k));
                }
            }
        }
        assert(got.nodes =~= want.nodes);
        assert forall|k: (Key, Key)| got.distrust.contains(k) == want.distrust.contains(k) by {
            if self.blocked(k.0, k.1) {
                let c = choose|c: int| self.block_joins(c, k.0, k.1);
                if c != at {
                    assert(mid.block_joins(c, k.0, k.1));
                }
            }
            if mid.blocked(k.0, k.1) {
                let c = choose|c: int| mid.block_joins(c, k.0, k.1);
                assert(self.block_joins(c, k.0, k.1));
            }
        }
        assert(got.distrust =~= want.distrust);
        assert forall|k: (Key, Key)| got.trust.contains_key(k) == want.trust.contains_key(k) by {
            if self.linked(k.0, k.1) {
                let e = choose|e: int| self.edge_joins(e, k.0, k.1);
                assert(mid.edge_joins(e, k.0, k.1));
            }
            if mid.linked(k.0, k.1) {
                let e = choose|e: int| mid.edge_joins(e, k.0, k.1);
                assert(self.edge_joins(e, k.0, k.1));
            }
        }
        assert forall|k: (Key, Key)| got.trust.contains_key(k) implies got.trust[k]
            == want.trust[k] by {
            let e = before.edge_between(k.0, k.1);
            self.lemma_edge_in_view(e);
        }
        assert(got.trust =~= want.trust);
    }
}

} // verus!
