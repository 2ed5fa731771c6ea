//! Core pipeline for previewing Ableton Live set projects: gzip-framed XML
//! container files are decompressed, parsed into a typed track/clip model,
//! and cached as one durable record per file so repeated runs avoid
//! re-parsing unchanged files.
//!
//! - [`extract`] decodes a container file's bytes to document text.
//! - [`xml`] holds the element arena a document parses to, with verified
//!   descendant and attribute lookups.
//! - [`parse`] builds the model — groups, tracks, clips — out of the arena,
//!   in document order, with typed errors for malformed documents.
//! - [`codec`] writes and reads cache records, with a proved round trip.
//! - [`cache`] keeps one record per parsed file under a skip-if-present
//!   policy and reads the store back grouped by project.
//! - [`parallel`] parses one project's files on a worker pool and
//!   aggregates per-file failures.
//! - [`palsa`] plans, runs and aggregates a whole scan, and drives the
//!   cache round trip.
//!
//! The surrounding program does the discovery, file reading and persistence,
//! and hands this library plain values.

use vstd::prelude::*;

pub mod cache;
pub mod codec;
mod colors;
pub mod extract;
mod num;
pub mod palsa;
pub mod parallel;
pub mod parse;
mod text;
pub mod xml;

pub use colors::init_colors;

verus! {

} // verus!
