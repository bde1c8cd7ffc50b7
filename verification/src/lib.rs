//! Trust distances and verdicts for a distributed, proof-based system of
//! code review.
//!
//! Identities sign proofs: that they trust or distrust another identity, that
//! they have reviewed a package, or that they flag it. From the accepted
//! proofs ([`store`]) a trust graph is made ([`builder`], [`graph`]); a search
//! from the local identity gives every identity within a budget its trust
//! distance ([`distance`], [`table`]); and the reviews and flags of those
//! identities give a verdict on a package ([`verdict`]). [`engine`] puts the
//! three steps behind one interface, [`model`] holds the proofs as typed
//! values, and [`opts`] the options of the command line as plain data.
//!
//! Checking signatures, fetching proofs and finding the local identity are
//! left to the caller, who hands their results in as plain values.

pub mod builder;
pub mod distance;
pub mod engine;
pub mod graph;
pub mod model;
pub mod opts;
mod search;
pub mod store;
pub mod table;
pub mod verdict;
