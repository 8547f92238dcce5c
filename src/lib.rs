//! Feasibility rules for vehicle routing and the vicinity clustering of jobs.
//!
//! - `models`: time windows, places, jobs, vehicles and routes.
//! - `skills`, `groups`: two standard features, with their hard rules and
//!   merge rules.
//! - `pipeline`: features composed in order; route evaluation and job merging.
//! - `transport`: a routing matrix of distances and durations.
//! - `vicinity`: clustering settings and the dissimilarities between jobs.
//! - `clusters`: the greedy construction of clusters around center jobs.
//! - `job_set`: a hash set of job indices.
//! - `format`, `validation`: format errors, violation codes and the combined
//!   verdict of validation rules.
//! - `experiment`: observations gathered by generation.

pub mod models;
pub mod skills;
pub mod groups;
pub mod pipeline;
pub mod transport;
pub mod vicinity;
pub mod job_set;
pub mod clusters;
pub mod format;
pub mod validation;
pub mod experiment;
