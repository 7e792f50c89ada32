//! A checkpointed backfill pipeline: records missing a derived field are
//! selected as candidates, filtered against an append-only journal so that no
//! artifact is ever inspected twice, inspected one by one, journaled, and
//! finally compiled into bounded batches of update statements against the
//! primary store.
//!
//! - [`codec`] — the byte-level journal text: escaping, splitting, joining;
//! - [`decimal`] — record identifiers as decimal digits;
//! - [`journal`] — entries, the journal encode/parse round trip, the resolved set;
//! - [`selector`] — candidates and the resolved-set filter;
//! - [`worker`] — lookup paths, value rendering, the per-candidate decision;
//! - [`engine`] — the run model: idempotence, resumability, skip-safety;
//! - [`compile`] — deduplication, no-op discarding, batching, statement text.

use vstd::prelude::*;

pub mod codec;
pub mod compile;
pub mod decimal;
pub mod engine;
pub mod journal;
pub mod selector;
pub mod worker;

verus! {

/// Errors found while reading the journal back during compilation.
/// A malformed journal aborts compilation: no partial update set is emitted.
#[derive(Clone, Copy, PartialEq, Eq, Structural, Debug)]
pub enum FormatError {
    /// An escape sequence in a journal field was malformed.
    Syntax,
    /// A journal record did not have the expected number of columns.
    ColumnCount,
    /// The record identifier column was not a decimal number in range.
    RecordId,
}

/// Per-candidate inspection failures. These never abort a run: the candidate
/// is skipped, stays out of the journal, and is retried on the next run.
#[derive(Clone, Copy, PartialEq, Eq, Structural, Debug)]
pub enum ItemError {
    /// The artifact file for the candidate does not exist.
    NotFound,
    /// The derived value does not fit the store's column type.
    TooLarge,
    /// The artifact exists but could not be parsed.
    ParseFailure,
}

} // verus!
