use vstd::prelude::*;

use crate::error::CoreError;

verus! {

/// A tagged attribute value, as produced by the UI engine for one attribute
/// of one node.
///
/// Floating-point payloads are carried as their raw bit pattern: the engine
/// never computes with them, it only hands them through to a mutator, so the
/// bits are all that matters here.  Listener and opaque payloads are carried
/// as handles into tables owned by the host; the engine only routes them.
#[derive(Debug, PartialEq, Eq)]
pub enum AttributeValue {
    /// A text value.
    Text(String),
    /// A floating-point value, as its raw bit pattern.
    Float(u64),
    /// An integer value.
    Int(i64),
    /// A boolean value.
    Bool(bool),
    /// An event-listener value; the handle designates a host-side handler.
    Listener(u64),
    /// An externally-typed value: a type-identity tag plus a handle to the
    /// host-side payload of that type.
    Any { type_tag: u64, handle: u64 },
}

impl Clone for AttributeValue {
    fn clone(&self) -> (r: Self)
        ensures
            r == *self,
    {
        match self {
            AttributeValue::Text(s) => AttributeValue::Text(s.clone()),
            AttributeValue::Float(bits) => AttributeValue::Float(*bits),
            AttributeValue::Int(i) => AttributeValue::Int(*i),
            AttributeValue::Bool(b) => AttributeValue::Bool(*b),
            AttributeValue::Listener(h) => AttributeValue::Listener(*h),
            AttributeValue::Any { type_tag, handle } => AttributeValue::Any {
                type_tag: *type_tag,
                handle: *handle,
            },
        }
    }
}

/// The primitive category an attribute mutator declares for its parameter.
///
/// `Any` carries the type-identity tag the mutator expects of an
/// externally-typed payload.
#[derive(Debug, Clone, Copy, PartialEq, Eq, Structural)]
pub enum AttributeKind {
    Text,
    Float,
    Int,
    Bool,
    Any(u64),
}

/// Whether a tagged value matches a mutator's expected category.
///
/// There is no implicit numeric coercion: an integer never matches `Float`
/// and vice versa.  An externally-typed value matches only when its
/// type-identity tag equals the expected one.  A listener value matches no
/// category at all.
pub open spec fn kind_matches(value: AttributeValue, kind: AttributeKind) -> bool {
    match (value, kind) {
        (AttributeValue::Text(_), AttributeKind::Text) => true,
        (AttributeValue::Float(_), AttributeKind::Float) => true,
        (AttributeValue::Int(_), AttributeKind::Int) => true,
        (AttributeValue::Bool(_), AttributeKind::Bool) => true,
        (AttributeValue::Any { type_tag, .. }, AttributeKind::Any(expected)) => type_tag
            == expected,
        _ => false,
    }
}

/// Converts a tagged value to the value a mutator expects.
///
/// Succeeds, returning the value unchanged, exactly when the value's variant
/// matches the expected category; any mismatch is a fatal contract error
/// between the UI engine and the element declarations.
pub fn convert_attribute(value: &AttributeValue, expected: &AttributeKind) -> (r: Result<
    AttributeValue,
    CoreError,
>)
    ensures
        kind_matches(*value, *expected) ==> r == Ok::<AttributeValue, CoreError>(*value),
        !kind_matches(*value, *expected) ==> r == Err::<AttributeValue, CoreError>(
            CoreError::AttributeTypeMismatch,
        ),
{
    let matches = match (value, expected) {
        (AttributeValue::Text(_), AttributeKind::Text) => true,
        (AttributeValue::Float(_), AttributeKind::Float) => true,
        (AttributeValue::Int(_), AttributeKind::Int) => true,
        (AttributeValue::Bool(_), AttributeKind::Bool) => true,
        (AttributeValue::Any { type_tag, .. }, AttributeKind::Any(e)) => *type_tag == *e,
        _ => false,
    };
    if matches {
        Ok(value.clone())
    } else {
        Err(CoreError::AttributeTypeMismatch)
    }
}

/// Wraps a host-side value of an externally-defined type as an attribute
/// value, tagged with its type identity.
pub fn attr(type_tag: u64, handle: u64) -> (r: AttributeValue)
    ensures
        r == (AttributeValue::Any { type_tag, handle }),
{
    AttributeValue::Any { type_tag, handle }
}

} // verus!
