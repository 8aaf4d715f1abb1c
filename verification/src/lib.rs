//! A branching-conversation library: messages form a tree rather than a flat
//! transcript, so any earlier message can be re-queried to grow sibling
//! branches. The tree shape, sibling ordering and traversal rules are stated
//! as contracts and verified.

use vstd::prelude::*;

pub mod conversations;
pub mod params;
pub mod tree;

verus! {

/// The failures that conversation operations can report. Every operation that
/// can fail returns one of these rather than panicking.
#[derive(Debug)]
pub enum RustGPTError {
    /// A message or a parameter was rejected before any mutation: empty
    /// content, or a temperature outside the accepted range.
    BadMessage(String),
    /// An id was used as a parent or an anchor, but no message in the
    /// conversation carries it.
    MessageNotPartOfConversation,
    /// The message's role does not admit the requested operation.
    InvalidMessageRole,
    /// The completion provider failed, or returned no choices.
    CompletionFailed(String),
    /// Stored conversation data does not describe a well-formed tree; such
    /// data is rejected as a whole, never repaired.
    CorruptAggregate(String),
}

} // verus!
