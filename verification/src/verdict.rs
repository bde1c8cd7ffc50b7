//! From trust distances and the reviews and flags of a package to a verdict.

use vstd::prelude::*;
use crate::model::{Identity, Key, Proof};
use crate::opts::CrateSelector;
use crate::store::{about, is_about, ProofStore};
use crate::table::{TrustDistances, TrustedId};

verus! {

/// What the proofs in force say of the packages that a selector lets
/// through. The verdict carries the evidence; how much of it is enough is
/// for the caller to decide.
#[derive(Debug, PartialEq, Eq)]
pub enum Verdict {
    /// No trusted identity has flagged, and these have reviewed.
    Trusted(Vec<TrustedId>),
    /// No trusted identity has reviewed or flagged.
    Unknown,
    /// These trusted identities have flagged.
    Flagged(Vec<TrustedId>),
}

/// An identity whose review or flag counts, with its trust distance.
pub struct Witness {
    pub who: Identity,
    pub distance: nat,
}

/// A verdict, apart from how its lists are stored.
pub enum VerdictView {
    Trusted(Seq<Witness>),
    Unknown,
    Flagged(Seq<Witness>),
}

/// The entries of a list as witnesses.
pub open spec fn evidence(list: Seq<TrustedId>) -> Seq<Witness> {
    list.map_values(|t: TrustedId| Witness { who: t.who, distance: t.distance as nat })
}

impl View for Verdict {
    type V = VerdictView;

    open spec fn view(&self) -> VerdictView {
        match *self {
            Verdict::Trusted(list) => VerdictView::Trusted(evidence(list@)),
            Verdict::Unknown => VerdictView::Unknown,
            Verdict::Flagged(list) => VerdictView::Flagged(evidence(list@)),
        }
    }
}

/// A proof counts as a flag (`flag`) or as a review (`!flag`) where it is
/// one, is about a package that the selector lets through, and its issuer
/// has a trust distance.
pub open spec fn qualifies(p: Proof, selector: CrateSelector, d: Map<Key, nat>, flag: bool) -> bool {
    &&& if flag {
        p is Flag
    } else {
        p is Review
    }
    &&& is_about(p, selector)
    &&& d.contains_key(p.spec_issuer().key())
}

/// Some witness of `w` is the identity `k`.
pub open spec fn named(w: Seq<Witness>, k: Key) -> bool {
    exists|i: int| 0 <= i < w.len() && (#[trigger] w[i]).who.key() == k
}

/// The issuers of the proofs of `s` that count, each once, in the order of
/// their first such proof, each with its trust distance.
pub open spec fn witnesses(s: Seq<Proof>, selector: CrateSelector, d: Map<Key, nat>, flag: bool) -> Seq<
    Witness,
>
    decreases s.len(),
{
    if s.len() == 0 {
        Seq::empty()
    } else {
        let before = witnesses(s.drop_last(), selector, d, flag);
        let who = s.last().spec_issuer();
        if qualifies(s.last(), selector, d, flag) && !named(before, who.key()) {
            before.push(Witness { who, distance: d[who.key()] })
        } else {
            before
        }
    }
}

/// Any flag that counts decides. Without one, any review that counts gives
/// `Trusted`. Without either, nothing is known.
pub open spec fn spec_verdict(selector: CrateSelector, s: Seq<Proof>, d: Map<Key, nat>) -> VerdictView {
    let flags = witnesses(s, selector, d, true);
    let reviews = witnesses(s, selector, d, false);
    if flags.len() > 0 {
        VerdictView::Flagged(flags)
    } else if reviews.len() > 0 {
        VerdictView::Trusted(reviews)
    } else {
        VerdictView::Unknown
    }
}

/// Every witness has issued a proof that counts, with the distance that the
/// table gives, and every issuer of a proof that counts is a witness.
pub proof fn lemma_witnesses(s: Seq<Proof>, selector: CrateSelector, d: Map<Key, nat>, flag: bool)
    ensures
        forall|x: int|
            0 <= x < witnesses(s, selector, d, flag).len() ==> exists|i: int|
                0 <= i < s.len() && qualifies(#[trigger] s[i], selector, d, flag)
                    && s[i].spec_issuer() == (#[trigger] witnesses(s, selector, d, flag)[x]).who
                    && witnesses(s, selector, d, flag)[x].distance == d[s[i].spec_issuer().key()],
        forall|i: int|
            0 <= i < s.len() && qualifies(#[trigger] s[i], selector, d, flag) ==> named(
                witnesses(s, selector, d, flag),
                s[i].spec_issuer().key(),
            ),
        forall|x: int, y: int|
            0 <= x < y < witnesses(s, selector, d, flag).len() ==> (#[trigger] witnesses(
                s,
                selector,
                d,
                flag,
            )[x]).who.key() != (#[trigger] witnesses(s, selector, d, flag)[y]).who.key(),
    decreases s.len(),
{
    let w = witnesses(s, selector, d, flag);
    if s.len() > 0 {
        let r = s.drop_last();
        let before = witnesses(r, selector, d, flag);
        lemma_witnesses(r, selector, d, flag);
        let last = s.len() - 1;
        assert forall|i: int|
            0 <= i < s.len() && qualifies(#[trigger] s[i], selector, d, flag) implies named(
            w,
            s[i].spec_issuer().key(),
        ) by {
            let k = s[i].spec_issuer().key();
            if i < last {
                assert(r[i] == s[i]);
            }
            if named(before, k) {
                let x = choose|x: int| 0 <= x < before.len() && (#[trigger] before[x]).who.key() == k;
                assert(w[x].who.key() == k);
            } else {
                assert(w[before.len() as int].who.key() == k);
            }
        }
    }
}

/// The place of a proof that counts and that the witness at `x` has issued.
pub proof fn lemma_witness_source(
    s: Seq<Proof>,
    selector: CrateSelector,
    d: Map<Key, nat>,
    flag: bool,
    x: int,
) -> (i: int)
    requires
        0 <= x < witnesses(s, selector, d, flag).len(),
    ensures
        0 <= i < s.len(),
        qualifies(s[i], selector, d, flag),
        s[i].spec_issuer() == witnesses(s, selector, d, flag)[x].who,
        witnesses(s, selector, d, flag)[x].distance == d[s[i].spec_issuer().key()],
{
    lemma_witnesses(s, selector, d, flag);
    let w = witnesses(s, selector, d, flag)[x];
    choose|i: int|
        0 <= i < s.len() && qualifies(#[trigger] s[i], selector, d, flag) && s[i].spec_issuer()
            == w.who && w.distance == d[s[i].spec_issuer().key()]
}

/// One flag of a trusted identity gives `Flagged`, however many trusted
/// identities have reviewed.
pub proof fn law_flag_decides(selector: CrateSelector, s: Seq<Proof>, d: Map<Key, nat>, i: int)
    requires
        0 <= i < s.len(),
        qualifies(s[i], selector, d, true),
    ensures
        spec_verdict(selector, s, d) is Flagged,
{
    lemma_witnesses(s, selector, d, true);
}

/// The verdict is `Flagged` exactly where some flag counts, `Unknown`
/// exactly where no flag and no review counts, and `Trusted` in between.
pub proof fn law_verdict_cases(selector: CrateSelector, s: Seq<Proof>, d: Map<Key, nat>)
    ensures
        spec_verdict(selector, s, d) is Flagged <==> exists|i: int|
            0 <= i < s.len() && qualifies(#[trigger] s[i], selector, d, true),
        spec_verdict(selector, s, d) is Unknown <==> forall|i: int|
            0 <= i < s.len() ==> !qualifies(#[trigger] s[i], selector, d, true) && !qualifies(
                s[i],
                selector,
                d,
                false,
            ),
{
    lemma_witnesses(s, selector, d, true);
    lemma_witnesses(s, selector, d, false);
    let flags = witnesses(s, selector, d, true);
    let reviews = witnesses(s, selector, d, false);
    if flags.len() > 0 {
        lemma_witness_source(s, selector, d, true, 0);
    }
    if reviews.len() > 0 {
        lemma_witness_source(s, selector, d, false, 0);
    }
}

/// Tells whether the list names the identity.
fn lists(list: &Vec<TrustedId>, who: &Identity) -> (found: bool)
    ensures
        found == named(evidence(list@), who.key()),
{
    let mut i: usize = 0;
    while i < list.len()
        invariant
            i <= list.len(),
            forall|j: int| 0 <= j < i ==> (#[trigger] evidence(list@)[j]).who.key() != who.key(),
        decreases list.len() - i,
    {
        if list[i].who.same_as(who) {
            assert(evidence(list@)[i as int].who.key() == who.key());
            return true;
        }
        i += 1;
    }
    false
}

/// The trusted identities that have flagged (`flag`) or reviewed (`!flag`)
/// a package that the selector lets through.
fn gather(selector: &CrateSelector, store: &ProofStore, distances: &TrustDistances, flag: bool) -> (list:
    Vec<TrustedId>)
    requires
        distances.wf(),
    ensures
        evidence(list@) == witnesses(store@, *selector, distances@, flag),
{
    let mut list: Vec<TrustedId> = Vec::new();
    let mut i: usize = 0;
    while i < store.len()
        invariant
            i <= store@.len(),
            distances.wf(),
            evidence(list@) == witnesses(store@.take(i as int), *selector, distances@, flag),
        decreases store@.len() - i,
    {
        proof {
            assert(store@.take(i + 1).drop_last() =~= store@.take(i as int));
        }
        let p = store.get(i);
        let of_kind = match p {
            Proof::Flag { .. } => flag,
            Proof::Review { .. } => !flag,
            _ => false,
        };
        if of_kind && about(p, selector) {
            match distances.get(p.issuer()) {
                Some(d) => {
                    if !lists(&list, p.issuer()) {
                        list.push(TrustedId { who: p.issuer().clone(), distance: d });
                    }
                },
                None => {},
            }
        }
        i += 1;
    }
    proof {
        assert(store@.take(store@.len() as int) =~= store@);
    }
    list
}

/// The verdict on the packages that `selector` lets through. Reviews and
/// flags of identities without a trust distance do not count.
pub fn verify(selector: &CrateSelector, store: &ProofStore, distances: &TrustDistances) -> (verdict:
    Verdict)
    requires
        distances.wf(),
    ensures
        verdict@ == spec_verdict(*selector, store@, distances@),
{
    let flags = gather(selector, store, distances, true);
    if flags.len() > 0 {
        return Verdict::Flagged(flags);
    }
    let reviews = gather(selector, store, distances, false);
    if reviews.len() > 0 {
        Verdict::Trusted(reviews)
    } else {
        Verdict::Unknown
    }
}

} // verus!
