//! Byte-range extraction for search-result highlighting.
//!
//! Given the token-ordinal positions at which a query's terms occur in one
//! document and a replay of the field's tokenizer over the document's raw
//! text, the generators in [`highlight`] recover the byte ranges of the
//! matched tokens: either the matched spans alone, or a full partition of
//! the text into highlighted and filler ranges. [`positions`] decodes the
//! occurrence positions from per-term postings data into a reusable
//! fixed-capacity scratch buffer.

use vstd::prelude::*;

pub mod highlight;
pub mod positions;
pub mod token;

verus! {

/// Failures surfaced by position decoding and range generation.
///
/// An empty text or an empty position set is not an error: the generators
/// return an empty (or whole-text) result for those.
#[derive(Clone, Copy, Debug, PartialEq, Eq, Structural)]
pub enum HighlightError {
    /// The field has no configured tokenizer, so its text cannot be replayed.
    TokenizerUnavailable,
    /// The cumulative decoded positions would exceed the scratch buffer's
    /// capacity; surfaced instead of truncating or overrunning the buffer.
    DecodeCapacityExceeded,
    /// The underlying postings or position store is inconsistent or
    /// truncated; not retried, since index corruption is not transient.
    PositionReadFailure,
}

} // verus!
