//! Reporting layer for a resolved dependency set: renders each dependency's
//! license in one of three output modes (full license listing, one license
//! per line, or grouped by license string).
//!
//! The surrounding binary locates the lockfile, resolves package metadata and
//! performs all output; this crate holds the formatting logic and its proofs.

pub mod cli;
pub mod full;
pub mod group;
pub mod line;
pub mod record;
pub mod text;
