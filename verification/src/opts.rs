//! Options of the command-line surface, as plain data.

use vstd::prelude::*;
use vstd::std_specs::convert::FromSpecImpl;

verus! {

/// What an optional text holds, as a sequence of characters.
pub open spec fn opt_text(o: Option<String>) -> Option<Seq<char>> {
    match o {
        Some(s) => Some(s@),
        None => None,
    }
}

/// Tells whether two optional texts hold the same characters.
pub fn same_opt_text(a: &Option<String>, b: &Option<String>) -> (same: bool)
    ensures
        same == (opt_text(*a) == opt_text(*b)),
{
    match a {
        Some(x) => match b {
            Some(y) => *x == *y,
            None => false,
        },
        None => b.is_none(),
    }
}

/// A copy of an optional text.
pub fn copy_opt_text(a: &Option<String>) -> (copy: Option<String>)
    ensures
        copy == *a,
{
    match a {
        Some(x) => Some(x.clone()),
        None => None,
    }
}

/// A filter over packages: an absent name matches every name, an absent
/// version matches every version.
#[derive(Debug, PartialEq, Eq)]
pub struct CrateSelector {
    pub name: Option<String>,
    pub version: Option<String>,
}

impl Clone for CrateSelector {
    fn clone(&self) -> (copy: Self)
        ensures
            copy == *self,
    {
        CrateSelector { name: copy_opt_text(&self.name), version: copy_opt_text(&self.version) }
    }
}

impl CrateSelector {
    /// The name and the version, each as characters.
    pub open spec fn key(&self) -> (Option<Seq<char>>, Option<Seq<char>>) {
        (opt_text(self.name), opt_text(self.version))
    }

    /// As a filter, `self` lets `subject` through when each part that `self`
    /// gives is the same in `subject`.
    pub open spec fn spec_matches(&self, subject: &CrateSelector) -> bool {
        &&& self.name is Some ==> opt_text(self.name) == opt_text(subject.name)
        &&& self.version is Some ==> opt_text(self.version) == opt_text(subject.version)
    }

    /// Tells whether `self`, as a filter, lets `subject` through.
    pub fn matches(&self, subject: &CrateSelector) -> (hit: bool)
        ensures
            hit == self.spec_matches(subject),
    {
        let name_ok = match &self.name {
            Some(_) => same_opt_text(&self.name, &subject.name),
            None => true,
        };
        let version_ok = match &self.version {
            Some(_) => same_opt_text(&self.version, &subject.version),
            None => true,
        };
        name_ok && version_ok
    }

    /// Tells whether two selectors name the same package and version.
    pub fn same_as(&self, other: &CrateSelector) -> (same: bool)
        ensures
            same == (self.key() == other.key()),
    {
        same_opt_text(&self.name, &other.name) && same_opt_text(&self.version, &other.version)
    }
}

/// A package filter whose name is always given.
#[derive(Debug, Clone)]
pub struct CrateSelectorNameRequired {
    pub name: String,
    pub version: Option<String>,
}

impl From<CrateSelectorNameRequired> for CrateSelector {
    /// The filter for the same name, and for the same version if one is
    /// given.
    fn from(c: CrateSelectorNameRequired) -> (s: Self)
        ensures
            s.name == Some(c.name),
            s.version == c.version,
    {
        Self { name: Some(c.name), version: c.version }
    }
}

impl FromSpecImpl<CrateSelectorNameRequired> for CrateSelector {
    open spec fn obeys_from_spec() -> bool {
        true
    }

    open spec fn from_spec(c: CrateSelectorNameRequired) -> Self {
        CrateSelector { name: Some(c.name), version: c.version }
    }
}

/// Costs of the trust search: the budget within which an identity counts as
/// reachable, and the cost of one step at each trust level. A lower cost
/// means a shorter distance, so stronger effective trust.
#[derive(Debug, Clone)]
pub struct TrustParams {
    pub depth: u64,
    pub high_cost: u64,
    pub medium_cost: u64,
    pub low_cost: u64,
}

impl Default for TrustParams {
    /// A budget of 10, with steps of cost 0, 1 and 5 for high, medium and low
    /// trust.
    fn default() -> (p: Self)
        ensures
            p.depth == 10,
            p.high_cost == 0,
            p.medium_cost == 1,
            p.low_cost == 5,
    {
        TrustParams { depth: 10, high_cost: 0, medium_cost: 1, low_cost: 5 }
    }
}

/// `crev_lib::TrustDistanceParams`, the costs that a trust search is run
/// with. Nothing is claimed of it: Verus reads its four public fields, the
/// budget and the cost of a step at each trust level, from the crate itself.
#[verifier::external_type_specification]
pub struct ExTrustDistanceParams(crev_lib::TrustDistanceParams);

impl From<TrustParams> for crev_lib::TrustDistanceParams {
    /// The depth becomes the budget of the search, and the cost of each
    /// trust level the distance of one step at that level.
    fn from(params: TrustParams) -> (r: Self)
        ensures
            r.max_distance == params.depth,
            r.high_trust_distance == params.high_cost,
            r.medium_trust_distance == params.medium_cost,
            r.low_trust_distance == params.low_cost,
    {
        crev_lib::TrustDistanceParams {
            max_distance: params.depth,
            high_trust_distance: params.high_cost,
            medium_trust_distance: params.medium_cost,
            low_trust_distance: params.low_cost,
        }
    }
}

impl FromSpecImpl<TrustParams> for crev_lib::TrustDistanceParams {
    open spec fn obeys_from_spec() -> bool {
        true
    }

    open spec fn from_spec(params: TrustParams) -> Self {
        crev_lib::TrustDistanceParams {
            max_distance: params.depth,
            high_trust_distance: params.high_cost,
            medium_trust_distance: params.medium_cost,
            low_trust_distance: params.low_cost,
        }
    }
}

/// Operations on the identities of the local user.
#[derive(Debug, Clone)]
pub struct Id {
    pub id_command: IdCommand,
}

/// What to do with the identities of the local user.
#[derive(Debug, Clone)]
pub enum IdCommand {
    /// Generate an identity
    New,
    /// Show the current identity
    Show,
    /// Switch to a different identity
    Switch(IdSwitch),
    /// List the available identities
    List,
}

/// The identity to make the current one.
#[derive(Debug, Clone)]
pub struct IdSwitch {
    pub id: String,
}

/// Verify the dependencies of the current project.
#[derive(Debug, Clone)]
pub struct Verify {
    pub verbose: bool,
    pub trust_params: TrustParams,
}

/// Trust or distrust other identities.
#[derive(Debug, Clone)]
pub struct Trust {
    /// Public ids to issue a trust or distrust proof for
    pub pub_ids: Vec<String>,
}

/// Where to fetch proofs from.
#[derive(Debug, Clone)]
pub struct FetchUrl {
    /// Fetch just one url
    pub url: String,
}

/// Fetch the proofs of other identities.
#[derive(Debug, Clone)]
pub enum Fetch {
    /// Fetch from every identity within the trust budget
    Trusted(TrustParams),
    /// Fetch from one url
    Url(FetchUrl),
}

/// List the identities within the trust budget.
#[derive(Debug, Clone)]
pub struct ListTrustedIds {
    pub trust_params: TrustParams,
}

/// List the reviews of the packages that a filter lets through.
#[derive(Debug, Clone)]
pub struct ListReviews {
    pub crate_: CrateSelector,
}

} // verus!
