//! The signed statements that identities issue, as typed values.

use vstd::prelude::*;
use vstd::utf8::encode_utf8;
use crate::opts::{copy_opt_text, CrateSelector};

verus! {

/// What identifies an identity in every contract: the characters of its id.
pub type Key = Seq<char>;

/// The two sequences agree before the place `i`, and differ at `i` or one of
/// them ends there.
pub open spec fn first_difference(a: Seq<u8>, b: Seq<u8>, i: int) -> bool {
    &&& 0 <= i <= a.len()
    &&& i <= b.len()
    &&& forall|j: int| 0 <= j < i ==> a[j] == b[j]
    &&& i == a.len() || i == b.len() || a[i] != b[i]
}

/// `a` comes before `b` byte by byte: where they first differ `a` has the
/// lesser byte, or `a` ends there and `b` goes on.
pub open spec fn bytes_before(a: Seq<u8>, b: Seq<u8>) -> bool {
    exists|i: int| #[trigger]
        first_difference(a, b, i) && i < b.len() && (i == a.len() || a[i] < b[i])
}

/// The order of identities: that of the bytes of their ids.
pub open spec fn id_before(a: Key, b: Key) -> bool {
    bytes_before(encode_utf8(a), encode_utf8(b))
}

/// What comes before something that comes before a third comes before the
/// third.
pub proof fn lemma_bytes_before_transitive(a: Seq<u8>, b: Seq<u8>, c: Seq<u8>)
    requires
        bytes_before(a, b),
        bytes_before(b, c),
    ensures
        bytes_before(a, c),
{
    let i = choose|i: int| #[trigger]
        first_difference(a, b, i) && i < b.len() && (i == a.len() || a[i] < b[i]);
    let j = choose|j: int| #[trigger]
        first_difference(b, c, j) && j < c.len() && (j == b.len() || b[j] < c[j]);
    let k = if i < j {
        i
    } else {
        j
    };
    assert(first_difference(a, c, k));
}

/// Tells whether `a` comes before `b` byte by byte.
pub fn bytes_come_before(a: &[u8], b: &[u8]) -> (before: bool)
    ensures
        before == bytes_before(a@, b@),
{
    let mut i: usize = 0;
    while i < a.len() && i < b.len()
        invariant
            i <= a.len(),
            i <= b.len(),
            forall|j: int| 0 <= j < i ==> a@[j] == b@[j],
        decreases a.len() - i,
    {
        if a[i] != b[i] {
            proof {
                assert(first_difference(a@, b@, i as int));
            }
            return a[i] < b[i];
        }
        i += 1;
    }
    proof {
        assert(first_difference(a@, b@, i as int));
    }
    i < b.len()
}

/// A participant that can issue proofs: the fingerprint of its public key,
/// and a display name that plays no part in any decision.
#[derive(Debug, PartialEq, Eq)]
pub struct Identity {
    pub id: String,
    pub name: Option<String>,
}

impl Clone for Identity {
    fn clone(&self) -> (copy: Self)
        ensures
            copy == *self,
    {
        Identity { id: self.id.clone(), name: copy_opt_text(&self.name) }
    }
}

impl Identity {
    /// What tells this identity from every other.
    pub open spec fn key(&self) -> Key {
        self.id@
    }

    /// The identity with the given id and without a display name.
    pub fn new(id: String) -> (who: Identity)
        ensures
            who.id == id,
            who.name is None,
    {
        Identity { id, name: None }
    }

    /// Tells whether this identity comes before the other in the order of
    /// identities.
    pub fn comes_before(&self, other: &Identity) -> (before: bool)
        ensures
            before == id_before(self.key(), other.key()),
    {
        bytes_come_before(self.id.as_str().as_bytes(), other.id.as_str().as_bytes())
    }

    /// Two values stand for one identity when their ids agree.
    pub fn same_as(&self, other: &Identity) -> (same: bool)
        ensures
            same == (self.key() == other.key()),
    {
        self.id == other.id
    }
}

/// How strongly one identity trusts another. No trust is no proof at all.
#[derive(Debug, Clone, Copy, PartialEq, Eq, Structural)]
pub enum TrustLevel {
    High,
    Medium,
    Low,
}

/// A grade of effort or of understanding in a review.
#[derive(Debug, Clone, Copy, PartialEq, Eq, Structural)]
pub enum Level {
    Low,
    Medium,
    High,
}

/// What a review states of the effort that went into it.
#[derive(Debug, Clone, Copy, PartialEq, Eq, Structural)]
pub struct ReviewContent {
    pub thoroughness: Level,
    pub understanding: Level,
}

/// What a proof is about: another identity, or a package.
pub enum Subject {
    Identity(Key),
    Package(Option<Seq<char>>, Option<Seq<char>>),
}

/// A signed statement. `date` is the time of signing, in seconds.
#[derive(Debug, PartialEq, Eq)]
pub enum Proof {
    Trust { from: Identity, to: Identity, level: TrustLevel, date: u64 },
    Distrust { from: Identity, to: Identity, date: u64 },
    Review { from: Identity, crate_: CrateSelector, outcome: ReviewContent, date: u64 },
    Flag { from: Identity, crate_: CrateSelector, date: u64 },
}

impl Clone for Proof {
    fn clone(&self) -> (copy: Self)
        ensures
            copy == *self,
    {
        match self {
            Proof::Trust { from, to, level, date } => Proof::Trust {
                from: from.clone(),
                to: to.clone(),
                level: *level,
                date: *date,
            },
            Proof::Distrust { from, to, date } => Proof::Distrust {
                from: from.clone(),
                to: to.clone(),
                date: *date,
            },
            Proof::Review { from, crate_, outcome, date } => Proof::Review {
                from: from.clone(),
                crate_: crate_.clone(),
                outcome: *outcome,
                date: *date,
            },
            Proof::Flag { from, crate_, date } => Proof::Flag {
                from: from.clone(),
                crate_: crate_.clone(),
                date: *date,
            },
        }
    }
}

impl Proof {
    /// Who has signed the proof.
    pub open spec fn spec_issuer(&self) -> Identity {
        match *self {
            Proof::Trust { from, .. } => from,
            Proof::Distrust { from, .. } => from,
            Proof::Review { from, .. } => from,
            Proof::Flag { from, .. } => from,
        }
    }

    /// When the proof was signed, in seconds.
    pub open spec fn spec_date(&self) -> u64 {
        match *self {
            Proof::Trust { date, .. } => date,
            Proof::Distrust { date, .. } => date,
            Proof::Review { date, .. } => date,
            Proof::Flag { date, .. } => date,
        }
    }

    /// A trust and a distrust proof are about their target, a review and a
    /// flag about their package.
    pub open spec fn subject(&self) -> Subject {
        match *self {
            Proof::Trust { to, .. } => Subject::Identity(to.key()),
            Proof::Distrust { to, .. } => Subject::Identity(to.key()),
            Proof::Review { crate_, .. } => Subject::Package(crate_.key().0, crate_.key().1),
            Proof::Flag { crate_, .. } => Subject::Package(crate_.key().0, crate_.key().1),
        }
    }

    /// Of the proofs with one key only the newest is in force.
    pub open spec fn key(&self) -> (Key, Subject) {
        (self.spec_issuer().key(), self.subject())
    }

    /// The package of a review or a flag.
    pub open spec fn package(&self) -> Option<CrateSelector> {
        match *self {
            Proof::Review { crate_, .. } => Some(crate_),
            Proof::Flag { crate_, .. } => Some(crate_),
            _ => None,
        }
    }

    /// Who has signed the proof.
    pub fn issuer(&self) -> (who: &Identity)
        ensures
            *who == self.spec_issuer(),
    {
        match self {
            Proof::Trust { from, .. } => from,
            Proof::Distrust { from, .. } => from,
            Proof::Review { from, .. } => from,
            Proof::Flag { from, .. } => from,
        }
    }

    /// When the proof was signed, in seconds.
    pub fn date(&self) -> (stamp: u64)
        ensures
            stamp == self.spec_date(),
    {
        match self {
            Proof::Trust { date, .. } => *date,
            Proof::Distrust { date, .. } => *date,
            Proof::Review { date, .. } => *date,
            Proof::Flag { date, .. } => *date,
        }
    }

    /// Tells whether two proofs have one issuer and one subject.
    pub fn same_key(&self, other: &Proof) -> (same: bool)
        ensures
            same == (self.key() == other.key()),
    {
        if !self.issuer().same_as(other.issuer()) {
            return false;
        }
        match self {
            Proof::Trust { to, .. } | Proof::Distrust { to, .. } => match other {
                Proof::Trust { to: other_to, .. } | Proof::Distrust { to: other_to, .. } => {
                    to.same_as(other_to)
                },
                _ => false,
            },
            Proof::Review { crate_, .. } | Proof::Flag { crate_, .. } => match other {
                Proof::Review { crate_: other_crate, .. } | Proof::Flag {
                    crate_: other_crate,
                    ..
                } => crate_.same_as(other_crate),
                _ => false,
            },
        }
    }
}

} // verus!
