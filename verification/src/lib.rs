//! A single-user job-application tracker: an in-memory record store with
//! verified add / update / delete operations, a length-prefixed text codec
//! for persistence, a semicolon-delimited row importer with duplicate
//! suppression, and a paginated report layout with summary statistics.
//!
//! The store is the single source of truth: a whole collection is read at
//! start, transformed in memory, and written back in full. Persisting what
//! was loaded is proved idempotent, ids are proved unique and strictly
//! increasing, and a re-imported batch is proved to add nothing.

pub mod codec;
pub mod import;
pub mod num;
pub mod report;
pub mod store;
pub mod text;
pub mod trusted;
