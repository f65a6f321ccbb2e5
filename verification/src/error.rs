use vstd::prelude::*;

verus! {

/// A contract violation detected while executing a deferred command.
///
/// These errors mean that the UI engine, the element declarations and the
/// reconciliation engine have fallen out of mutual agreement; they are fatal
/// for the affected render pass.  The host is expected to abort the pass
/// rather than continue with inconsistent state.  They are never produced on
/// a well-formed mutation stream.
#[derive(Debug, Clone, Copy, PartialEq, Eq, Structural)]
pub enum CoreError {
    /// A mutation referenced a UI node id that no prior mutation bound.
    UnknownId { id: usize },
    /// A child-index path did not designate a descendant.
    PathWalkFailed,
    /// A tagged attribute value did not match the mutator's expected type.
    AttributeTypeMismatch,
    /// An attribute was set on an entity that carries no element tag.
    MissingElementTag { entity: usize },
    /// A sibling operation needed the parent of an entity that has none.
    NoParent { entity: usize },
    /// An operation referenced an entity that does not exist or was despawned.
    NotAlive { entity: usize },
    /// A mutation asked for more entities than the construction stack holds.
    StackUnderflow,
    /// An entity was inserted under a parent while already having a parent.
    AlreadyParented { entity: usize },
    /// One entity was popped twice by a single operation.
    DuplicateEntity { entity: usize },
    /// An entity was about to become its own parent.
    SelfParent { entity: usize },
    /// A text mutation targeted an entity that has no text content.
    NoText { entity: usize },
    /// A template was asked for a subtree index it does not have.
    TemplateIndexOutOfRange { index: usize },
}

} // verus!
