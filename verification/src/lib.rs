//! Bookkeeping for a local Hugging Face Hub cache, with proofs.
//!
//! - [`repo_id`] screens the segments of repository identifiers.
//! - [`cache`] holds what a scan of the cache found; [`deletion`] plans the
//!   deletion of revisions from it and [`execution`] runs such a plan. What
//!   holds of every plan, of every run and of the disk that a run leaves stands
//!   in [`deletion_laws`], [`execution_laws`] and [`disk_laws`]; how plans of
//!   parts of a cache add up stands in [`partition_laws`], and what a plan
//!   lists, told from the records alone, in [`plan_laws`].
//! - [`fixture`] and [`progress`] decide for a local stand-in of the Hub that
//!   resumed downloads are tried against; what holds of its answers stands in
//!   [`fixture_laws`].
//! - [`path`], [`path_set`], [`order`], [`text`] and [`json`] are what these
//!   are built on.

pub mod cache;
pub mod deletion;
pub mod deletion_laws;
pub mod disk_laws;
pub mod execution;
pub mod execution_laws;
pub mod fixture;
pub mod fixture_laws;
pub mod json;
pub mod order;
pub mod partition_laws;
pub mod path;
pub mod path_set;
pub mod plan_laws;
pub mod progress;
pub mod repo_id;
pub mod text;
