//! Enumerate the distinct commit authors (name and email pairs) found across a
//! set of Git repositories, where each repository is named either directly by a
//! clonable URL or indirectly through a hosting-platform user or organization
//! account.
//!
//! The crate holds the logic of that pipeline: classifying an input string as a
//! direct repository or an account reference, expanding an account's paginated
//! repository listing into clone URLs with forks removed, draining a shared
//! work queue of URLs, walking a repository's commit graph from every branch
//! and tag to collect each reachable commit's author exactly once, and merging
//! all identities into one de-duplicated, lexicographically sorted result.
//! Network, subprocess and filesystem work stays with the caller, which hands
//! the outcomes in as plain values.

pub mod authors;
pub mod cli;
pub mod errors;
pub mod pipeline;
pub mod queue;
pub mod pagination;
pub mod repo;
pub mod urls;
