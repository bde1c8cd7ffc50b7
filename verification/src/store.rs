//! The proofs that have been accepted: for each issuer and subject the
//! newest, and beside them the ones that a newer proof has replaced.

use vstd::prelude::*;
use crate::model::{Identity, Key, Proof, Subject};
use crate::opts::CrateSelector;

verus! {

/// Why a proof was not accepted.
#[derive(Debug, Clone, Copy, PartialEq, Eq, Structural)]
pub enum RejectReason {
    /// The record could not be read as a proof.
    Malformed,
    /// The signature does not belong to the proof and its issuer.
    BadSignature,
    /// The proof claims to have been signed later than now.
    FutureTimestamp,
}

/// Why a proof that is well-formed is rejected at the time `now`, if it is.
pub open spec fn spec_check(p: Proof, signature_ok: bool, now: u64) -> Option<RejectReason> {
    if !signature_ok {
        Some(RejectReason::BadSignature)
    } else if p.spec_date() > now {
        Some(RejectReason::FutureTimestamp)
    } else {
        None
    }
}

/// Some proof of `s` has the key `k`.
pub open spec fn holds_key(s: Seq<Proof>, k: (Key, Subject)) -> bool {
    exists|i: int| 0 <= i < s.len() && (#[trigger] s[i]).key() == k
}

/// The place in `s` of the proof that has the key `k`.
pub open spec fn place_of_key(s: Seq<Proof>, k: (Key, Subject)) -> int {
    choose|i: int| 0 <= i < s.len() && (#[trigger] s[i]).key() == k
}

/// No two proofs of `s` have one issuer and one subject.
pub open spec fn distinct_keys(s: Seq<Proof>) -> bool {
    forall|i: int, j: int| 0 <= i < j < s.len() ==> (#[trigger] s[i]).key() != (#[trigger] s[j]).key()
}

/// The proofs in force once `p` has been accepted: `p` takes the place of an
/// older proof with its key, is added where there is none, and is dropped
/// where the proof in force is as new or newer.
pub open spec fn with_proof(s: Seq<Proof>, p: Proof) -> Seq<Proof> {
    if holds_key(s, p.key()) {
        let at = place_of_key(s, p.key());
        if s[at].spec_date() < p.spec_date() {
            s.update(at, p)
        } else {
            s
        }
    } else {
        s.push(p)
    }
}

/// The proof that `p` replaces when it is accepted, if it replaces one.
pub open spec fn replaced_by(s: Seq<Proof>, p: Proof) -> Option<Proof> {
    if holds_key(s, p.key()) && s[place_of_key(s, p.key())].spec_date() < p.spec_date() {
        Some(s[place_of_key(s, p.key())])
    } else {
        None
    }
}

/// The archive once `p` has been accepted: what `p` replaces is kept.
pub open spec fn with_replaced(archive: Seq<Proof>, s: Seq<Proof>, p: Proof) -> Seq<Proof> {
    match replaced_by(s, p) {
        Some(old) => archive.push(old),
        None => archive,
    }
}

/// The proofs in force once `p` has been offered with the given result of the
/// signature check at the time `now`.
pub open spec fn after_offer(s: Seq<Proof>, p: Proof, signature_ok: bool, now: u64) -> Seq<Proof> {
    if spec_check(p, signature_ok, now) is None {
        with_proof(s, p)
    } else {
        s
    }
}

/// Accepting a proof keeps the keys distinct.
pub proof fn lemma_with_proof_distinct(s: Seq<Proof>, p: Proof)
    requires
        distinct_keys(s),
    ensures
        distinct_keys(with_proof(s, p)),
        holds_key(with_proof(s, p), p.key()),
        with_proof(s, p)[place_of_key(with_proof(s, p), p.key())].spec_date() >= p.spec_date(),
{
    let t = with_proof(s, p);
    if holds_key(s, p.key()) {
        let at = place_of_key(s, p.key());
        assert(t[at].key() == p.key());
    } else {
        assert(t[s.len() as int].key() == p.key());
    }
}

/// To offer one proof twice is to offer it once: the second time neither the
/// proofs in force nor the archive change.
pub proof fn law_offer_twice(s: Seq<Proof>, p: Proof, signature_ok: bool, now: u64)
    requires
        distinct_keys(s),
    ensures
        after_offer(after_offer(s, p, signature_ok, now), p, signature_ok, now) == after_offer(
            s,
            p,
            signature_ok,
            now,
        ),
        with_proof(with_proof(s, p), p) == with_proof(s, p),
        replaced_by(with_proof(s, p), p) is None,
{
    lemma_with_proof_distinct(s, p);
}

/// Once a proof has been accepted, to offer it again changes nothing,
/// whatever the signature check and the clock say the second time.
pub proof fn law_offer_again(
    s: Seq<Proof>,
    p: Proof,
    signature_ok: bool,
    now: u64,
    signature_ok_again: bool,
    now_again: u64,
)
    requires
        distinct_keys(s),
        spec_check(p, signature_ok, now) is None,
    ensures
        after_offer(after_offer(s, p, signature_ok, now), p, signature_ok_again, now_again)
            == after_offer(s, p, signature_ok, now),
{
    lemma_with_proof_distinct(s, p);
}

/// Accepting a proof keeps every key that was in force, with a proof that is
/// as new as the one before or newer.
pub proof fn lemma_with_proof_keeps(s: Seq<Proof>, p: Proof, k: (Key, Subject))
    requires
        distinct_keys(s),
        holds_key(s, k),
    ensures
        holds_key(with_proof(s, p), k),
        with_proof(s, p)[place_of_key(with_proof(s, p), k)].spec_date() >= s[place_of_key(
            s,
            k,
        )].spec_date(),
{
    let t = with_proof(s, p);
    lemma_with_proof_distinct(s, p);
    let was = place_of_key(s, k);
    let at = place_of_key(t, k);
    if at < was {
        assert(t[at].key() != t[was].key());
    } else if was < at {
        assert(t[was].key() != t[at].key());
    }
}

/// The accepted proofs.
#[derive(Debug)]
pub struct ProofStore {
    pub(crate) proofs: Vec<Proof>,
    pub(crate) replaced: Vec<Proof>,
}

impl ProofStore {
    /// The proofs in force, oldest key first.
    pub closed spec fn view(&self) -> Seq<Proof> {
        self.proofs@
    }

    /// The proofs that a newer one has replaced, in the order in which they
    /// were replaced. Nothing is ever taken out of the store.
    pub closed spec fn archive(&self) -> Seq<Proof> {
        self.replaced@
    }

    /// Of the proofs in force no two have one issuer and one subject.
    pub open spec fn wf(&self) -> bool {
        distinct_keys(self@)
    }

    /// The store without proofs.
    pub fn new() -> (store: ProofStore)
        ensures
            store.wf(),
            store@ == Seq::<Proof>::empty(),
            store.archive() == Seq::<Proof>::empty(),
    {
        ProofStore { proofs: Vec::new(), replaced: Vec::new() }
    }

    /// How many proofs are in force.
    pub fn len(&self) -> (n: usize)
        ensures
            n == self@.len(),
    {
        self.proofs.len()
    }

    /// The proof in force at the place `i`.
    pub fn get(&self, i: usize) -> (p: &Proof)
        requires
            i < self@.len(),
        ensures
            *p == self@[i as int],
    {
        &self.proofs[i]
    }

    /// How many proofs have been replaced.
    pub fn archive_len(&self) -> (n: usize)
        ensures
            n == self.archive().len(),
    {
        self.replaced.len()
    }

    /// The replaced proof at the place `i` of the archive.
    pub fn archived(&self, i: usize) -> (p: &Proof)
        requires
            i < self.archive().len(),
        ensures
            *p == self.archive()[i as int],
    {
        &self.replaced[i]
    }

    /// The place of the proof in force that has the key of `p`.
    fn find_key(&self, p: &Proof) -> (at: Option<usize>)
        ensures
            match at {
                Some(i) => i < self.proofs.len() && self.proofs[i as int].key() == p.key(),
                None => !holds_key(self.proofs@, p.key()),
            },
    {
        let mut i: usize = 0;
        while i < self.proofs.len()
            invariant
                i <= self.proofs.len(),
                forall|j: int| 0 <= j < i ==> (#[trigger] self.proofs[j]).key() != p.key(),
            decreases self.proofs.len() - i,
        {
            if self.proofs[i].same_key(p) {
                return Some(i);
            }
            i += 1;
        }
        None
    }

    /// Offers a proof to the store. `signature_ok` is what the check of its
    /// signature gave, `now` the current time in seconds. A proof with a bad
    /// signature or with a date after `now` is rejected and changes nothing.
    /// Any other proof is accepted: it is added, or takes the place of an
    /// older proof of its issuer about its subject, which goes to the
    /// archive; where the proof in force is as new or newer, nothing changes.
    pub fn add(&mut self, proof: Proof, signature_ok: bool, now: u64) -> (done: Result<
        (),
        RejectReason,
    >)
        requires
            old(self).wf(),
        ensures
            final(self).wf(),
            done == match spec_check(proof, signature_ok, now) {
                Some(reason) => Err::<(), RejectReason>(reason),
                None => Ok(()),
            },
            final(self)@ == after_offer(old(self)@, proof, signature_ok, now),
            done is Err ==> final(self).archive() == old(self).archive(),
            done is Ok ==> final(self).archive() == with_replaced(
                old(self).archive(),
                old(self)@,
                proof,
            ),
    {
        if !signature_ok {
            return Err(RejectReason::BadSignature);
        }
        if proof.date() > now {
            return Err(RejectReason::FutureTimestamp);
        }
        proof {
            lemma_with_proof_distinct(self.proofs@, proof);
        }
        match self.find_key(&proof) {
            Some(at) => {
                if self.proofs[at].date() < proof.date() {
                    let old_proof = self.proofs[at].clone();
                    self.proofs.set(at, proof);
                    self.replaced.push(old_proof);
                }
            },
            None => {
                self.proofs.push(proof);
            },
        }
        Ok(())
    }

    /// The proofs in force that `who` issued, in the order of the store.
    pub fn proofs_from(&self, who: &Identity) -> (found: Vec<Proof>)
        ensures
            found@ == self@.filter(|p: Proof| p.spec_issuer().key() == who.key()),
    {
        let ghost wanted = |p: Proof| p.spec_issuer().key() == who.key();
        let mut found: Vec<Proof> = Vec::new();
        let mut i: usize = 0;
        proof {
            reveal(Seq::filter);
        }
        while i < self.proofs.len()
            invariant
                i <= self.proofs.len(),
                wanted == |p: Proof| p.spec_issuer().key() == who.key(),
                found@ == self.proofs@.take(i as int).filter(wanted),
            decreases self.proofs.len() - i,
        {
            proof {
                reveal(Seq::filter);
                assert(self.proofs@.take(i + 1).drop_last() =~= self.proofs@.take(i as int));
            }
            if self.proofs[i].issuer().same_as(who) {
                found.push(self.proofs[i].clone());
            }
            i += 1;
        }
        proof {
            assert(self.proofs@.take(self.proofs.len() as int) =~= self.proofs@);
        }
        found
    }

    /// The reviews and flags in force about a package that `selector` lets
    /// through, in the order of the store.
    pub fn proofs_about(&self, selector: &CrateSelector) -> (found: Vec<Proof>)
        ensures
            found@ == self@.filter(|p: Proof| is_about(p, *selector)),
    {
        let ghost wanted = |p: Proof| is_about(p, *selector);
        let mut found: Vec<Proof> = Vec::new();
        let mut i: usize = 0;
        proof {
            reveal(Seq::filter);
        }
        while i < self.proofs.len()
            invariant
                i <= self.proofs.len(),
                wanted == |p: Proof| is_about(p, *selector),
                found@ == self.proofs@.take(i as int).filter(wanted),
            decreases self.proofs.len() - i,
        {
            proof {
                reveal(Seq::filter);
                assert(self.proofs@.take(i + 1).drop_last() =~= self.proofs@.take(i as int));
            }
            if about(&self.proofs[i], selector) {
                found.push(self.proofs[i].clone());
            }
            i += 1;
        }
        proof {
            assert(self.proofs@.take(self.proofs.len() as int) =~= self.proofs@);
        }
        found
    }
}

/// `p` is a review or a flag of a package that `selector` lets through.
pub open spec fn is_about(p: Proof, selector: CrateSelector) -> bool {
    p.package() matches Some(subject) && selector.spec_matches(&subject)
}

/// Tells whether `p` is a review or a flag of a package that `selector` lets
/// through.
pub fn about(p: &Proof, selector: &CrateSelector) -> (hit: bool)
    ensures
        hit == is_about(*p, *selector),
{
    match p {
        Proof::Review { crate_, .. } => selector.matches(crate_),
        Proof::Flag { crate_, .. } => selector.matches(crate_),
        _ => false,
    }
}

} // verus!
