//! The engine as its caller sees it: proofs go in, trust distances and
//! verdicts come out, all relative to one local root identity.

use vstd::prelude::*;
use crev_lib::TrustDistanceParams;
use crate::builder::{build, graph_of};
use crate::distance::{distances, spec_distances};
use crate::model::{Identity, Key, Proof};
use crate::opts::CrateSelector;
use crate::store::{
    after_offer, distinct_keys, holds_key, law_offer_twice, lemma_with_proof_distinct,
    lemma_with_proof_keeps, place_of_key, spec_check, with_proof, with_replaced, ProofStore,
    RejectReason,
};
use crate::table::TrustDistances;
use crate::verdict::{spec_verdict, verify, Verdict};

verus! {

/// One record of a batch, as the reader of proofs and the signature check
/// hand it over: the proof, unless the record could not be read as one, and
/// whether its signature is that of the proof and its issuer.
#[derive(Debug, PartialEq, Eq)]
pub struct RawProof {
    pub proof: Option<Proof>,
    pub signature_ok: bool,
}

/// A record of a batch that was not accepted, by its place in the batch.
#[derive(Debug, Clone, Copy, PartialEq, Eq, Structural)]
pub struct Rejection {
    pub index: usize,
    pub reason: RejectReason,
}

/// What became of a batch of records.
#[derive(Debug, PartialEq, Eq)]
pub struct IngestReport {
    pub accepted: usize,
    pub rejected: Vec<Rejection>,
}

/// Why the engine cannot answer.
#[derive(Debug, Clone, Copy, PartialEq, Eq, Structural)]
pub enum EngineError {
    /// No local identity is set, so there is nothing to measure trust from.
    RootUnconfigured,
}

/// Why a record is rejected at the time `now`, if it is.
pub open spec fn raw_check(raw: RawProof, now: u64) -> Option<RejectReason> {
    match raw.proof {
        None => Some(RejectReason::Malformed),
        Some(p) => spec_check(p, raw.signature_ok, now),
    }
}

/// The proofs in force after a batch: each record that is not rejected is
/// accepted in turn. A rejected record changes nothing and stops nothing.
pub open spec fn after_batch(s: Seq<Proof>, raws: Seq<RawProof>, now: u64) -> Seq<Proof>
    decreases raws.len(),
{
    if raws.len() == 0 {
        s
    } else {
        let before = after_batch(s, raws.drop_last(), now);
        if raw_check(raws.last(), now) is None {
            with_proof(before, raws.last().proof->0)
        } else {
            before
        }
    }
}

/// The archive after a batch: what each accepted record replaces is kept.
pub open spec fn archive_after_batch(
    archive: Seq<Proof>,
    s: Seq<Proof>,
    raws: Seq<RawProof>,
    now: u64,
) -> Seq<Proof>
    decreases raws.len(),
{
    if raws.len() == 0 {
        archive
    } else {
        let before = archive_after_batch(archive, s, raws.drop_last(), now);
        if raw_check(raws.last(), now) is None {
            with_replaced(before, after_batch(s, raws.drop_last(), now), raws.last().proof->0)
        } else {
            before
        }
    }
}

/// The rejected records of a batch, in the order of the batch, each with its
/// reason.
pub open spec fn rejections(raws: Seq<RawProof>, now: u64) -> Seq<Rejection>
    decreases raws.len(),
{
    if raws.len() == 0 {
        Seq::empty()
    } else {
        let before = rejections(raws.drop_last(), now);
        match raw_check(raws.last(), now) {
            Some(reason) => before.push(
                Rejection { index: (raws.len() - 1) as usize, reason },
            ),
            None => before,
        }
    }
}

/// To offer one proof twice leaves the proofs in force, the trust graph and
/// every trust distance as they were after the first time.
pub proof fn law_offer_twice_same_distances(
    s: Seq<Proof>,
    p: Proof,
    signature_ok: bool,
    now: u64,
    root: Key,
    params: TrustDistanceParams,
)
    requires
        distinct_keys(s),
    ensures
        after_offer(after_offer(s, p, signature_ok, now), p, signature_ok, now) == after_offer(
            s,
            p,
            signature_ok,
            now,
        ),
        spec_distances(
            graph_of(after_offer(after_offer(s, p, signature_ok, now), p, signature_ok, now)),
            root,
            params,
        ) == spec_distances(graph_of(after_offer(s, p, signature_ok, now)), root, params),
{
    law_offer_twice(s, p, signature_ok, now);
}

/// A batch that holds one record twice in a row leaves the proofs in force
/// as the batch with the record once.
pub proof fn law_batch_repeat(s: Seq<Proof>, raws: Seq<RawProof>, raw: RawProof, now: u64)
    requires
        distinct_keys(s),
    ensures
        after_batch(s, raws.push(raw).push(raw), now) == after_batch(s, raws.push(raw), now),
        distinct_keys(after_batch(s, raws, now)),
    decreases raws.len(),
{
    lemma_batch_distinct(s, raws, now);
    let once = raws.push(raw);
    let twice = once.push(raw);
    assert(twice.drop_last() =~= once);
    assert(once.drop_last() =~= raws);
    if raw_check(raw, now) is None {
        law_offer_twice(after_batch(s, raws, now), raw.proof->0, raw.signature_ok, now);
    }
}

/// A batch keeps the keys distinct.
pub proof fn lemma_batch_distinct(s: Seq<Proof>, raws: Seq<RawProof>, now: u64)
    requires
        distinct_keys(s),
    ensures
        distinct_keys(after_batch(s, raws, now)),
    decreases raws.len(),
{
    if raws.len() > 0 {
        lemma_batch_distinct(s, raws.drop_last(), now);
        if raw_check(raws.last(), now) is None {
            lemma_with_proof_distinct(
                after_batch(s, raws.drop_last(), now),
                raws.last().proof->0,
            );
        }
    }
}

/// The newest wins: after a batch, for the issuer and subject of each record
/// that was accepted a proof is in force, and it is as new as that record or
/// newer.
pub proof fn law_newest_in_force(s: Seq<Proof>, raws: Seq<RawProof>, now: u64, i: int)
    requires
        distinct_keys(s),
        0 <= i < raws.len(),
        raw_check(raws[i], now) is None,
    ensures
        holds_key(after_batch(s, raws, now), raws[i].proof->0.key()),
        after_batch(s, raws, now)[place_of_key(
            after_batch(s, raws, now),
            raws[i].proof->0.key(),
        )].spec_date() >= raws[i].proof->0.spec_date(),
    decreases raws.len(),
{
    let before = after_batch(s, raws.drop_last(), now);
    lemma_batch_distinct(s, raws.drop_last(), now);
    if i == raws.len() - 1 {
        lemma_with_proof_distinct(before, raws[i].proof->0);
    } else {
        law_newest_in_force(s, raws.drop_last(), now, i);
        if raw_check(raws.last(), now) is None {
            lemma_with_proof_keeps(before, raws.last().proof->0, raws[i].proof->0.key());
        }
    }
}

/// The accepted proofs and the local identity from which trust is measured.
#[derive(Debug)]
pub struct Engine {
    pub store: ProofStore,
    pub root: Option<Identity>,
}

impl Engine {
    /// The engine is as well-formed as its store.
    pub open spec fn wf(&self) -> bool {
        self.store.wf()
    }

    /// An engine without proofs. Without a root it can take proofs in, but
    /// cannot measure trust.
    pub fn new(root: Option<Identity>) -> (engine: Engine)
        ensures
            engine.wf(),
            engine.root == root,
            engine.store@ == Seq::<Proof>::empty(),
            engine.store.archive() == Seq::<Proof>::empty(),
    {
        Engine { store: ProofStore::new(), root }
    }

    /// Takes in a batch of records at the time `now`. Each is accepted or
    /// rejected by itself; the report counts the accepted ones and lists the
    /// rejected ones with their reasons.
    pub fn ingest(&mut self, raws: &Vec<RawProof>, now: u64) -> (report: IngestReport)
        requires
            old(self).wf(),
        ensures
            final(self).wf(),
            final(self).root == old(self).root,
            final(self).store@ == after_batch(old(self).store@, raws@, now),
            final(self).store.archive() == archive_after_batch(
                old(self).store.archive(),
                old(self).store@,
                raws@,
                now,
            ),
            report.rejected@ == rejections(raws@, now),
            report.accepted == raws.len() - report.rejected.len(),
    {
        let mut accepted: usize = 0;
        let mut rejected: Vec<Rejection> = Vec::new();
        let mut i: usize = 0;
        while i < raws.len()
            invariant
                i <= raws.len(),
                self.wf(),
                self.root == old(self).root,
                self.store@ == after_batch(old(self).store@, raws@.take(i as int), now),
                self.store.archive() == archive_after_batch(
                    old(self).store.archive(),
                    old(self).store@,
                    raws@.take(i as int),
                    now,
                ),
                rejected@ == rejections(raws@.take(i as int), now),
                accepted + rejected.len() == i,
            decreases raws.len() - i,
        {
            proof {
                assert(raws@.take(i + 1).drop_last() =~= raws@.take(i as int));
            }
            match &raws[i].proof {
                None => {
                    rejected.push(Rejection { index: i, reason: RejectReason::Malformed });
                },
                Some(p) => {
                    match self.store.add(p.clone(), raws[i].signature_ok, now) {
                        Ok(()) => {
                            accepted += 1;
                        },
                        Err(reason) => {
                            rejected.push(Rejection { index: i, reason });
                        },
                    }
                },
            }
            i += 1;
        }
        proof {
            assert(raws@.take(raws.len() as int) =~= raws@);
        }
        IngestReport { accepted, rejected }
    }

    /// The trust distances from the root over the graph of the proofs in
    /// force. Without a root nothing is computed.
    pub fn compute_trust(&self, params: &TrustDistanceParams) -> (found: Result<
        TrustDistances,
        EngineError,
    >)
        requires
            self.wf(),
        ensures
            match found {
                Ok(table) => self.root is Some && table.wf() && table@ == spec_distances(
                    graph_of(self.store@),
                    self.root->0.key(),
                    *params,
                ),
                Err(e) => self.root is None && e == EngineError::RootUnconfigured,
            },
    {
        match &self.root {
            None => Err(EngineError::RootUnconfigured),
            Some(root) => {
                let graph = build(&self.store);
                Ok(distances(&graph, root, params))
            },
        }
    }

    /// The verdict on the packages that `selector` lets through, given trust
    /// distances that were computed before.
    pub fn verify(&self, selector: &CrateSelector, distances: &TrustDistances) -> (verdict: Verdict)
        requires
            distances.wf(),
        ensures
            verdict@ == spec_verdict(*selector, self.store@, distances@),
    {
        verify(selector, &self.store, distances)
    }
}

} // verus!
