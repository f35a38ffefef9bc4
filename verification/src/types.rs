//! Core value model: payload type tags, payload values, and action handles.
//!
//! Every action carries data of exactly one payload type, chosen when the
//! action is created. The set of payload types is a closed tagged union:
//! dispatch on a stored tag replaces open-ended runtime type information,
//! and every downcast-like step is gated by comparing tags.

use vstd::prelude::*;

verus! {

/// Identifies the payload type an action or input carries.
#[derive(Clone, Copy, Debug, PartialEq, Eq, Structural)]
pub enum TypeTag {
    /// An instantaneous event carrying no data, such as a key press edge.
    Unit,
    /// A held/released state, such as whether a key is currently down.
    Bool,
    /// A two-dimensional vector, such as a direction or a motion delta.
    Vec2,
}

/// A two-dimensional vector payload with integer components.
#[derive(Clone, Copy, Debug, PartialEq, Eq, Structural)]
pub struct Vec2 {
    pub x: i64,
    pub y: i64,
}

/// One payload value, tagged with its type.
#[derive(Clone, Copy, Debug, PartialEq, Eq, Structural)]
pub enum Value {
    Unit,
    Bool(bool),
    Vec2(Vec2),
}

impl Value {
    /// The payload type this value belongs to.
    pub open spec fn spec_tag(self) -> TypeTag {
        match self {
            Value::Unit => TypeTag::Unit,
            Value::Bool(_) => TypeTag::Bool,
            Value::Vec2(_) => TypeTag::Vec2,
        }
    }

    /// Report the payload type this value belongs to.
    #[verifier::when_used_as_spec(spec_tag)]
    pub fn tag(self) -> (t: TypeTag)
        ensures
            t == self.spec_tag(),
    {
        match self {
            Value::Unit => TypeTag::Unit,
            Value::Bool(_) => TypeTag::Bool,
            Value::Vec2(_) => TypeTag::Vec2,
        }
    }
}

/// Untyped handle to an action in some session.
///
/// Identifiers are dense: a session allocates them sequentially from 0 and
/// never reuses one.
#[derive(Clone, Copy, Debug, PartialEq, Eq, Structural)]
pub struct ActionId(pub u32);

/// A typed handle to an action.
///
/// Pairs the dense identifier with the payload type tag the action was
/// created with. A handle is valid only against the session that created
/// the action, and its tag never changes over the action's lifetime.
#[derive(Clone, Copy, Debug, PartialEq, Eq, Structural)]
pub struct Action {
    pub id: ActionId,
    pub tag: TypeTag,
}

impl Action {
    /// The untyped identifier of this action.
    pub fn id(self) -> (r: ActionId)
        ensures
            r == self.id,
    {
        self.id
    }
}

/// A mismatch between the payload type of an input and an action, or between
/// the type of some data and the type declared by an input.
///
/// Carries both the expected and the actual type description.
#[derive(Clone, Copy, Debug, PartialEq, Eq, Structural)]
pub struct TypeError {
    pub expected: TypeTag,
    pub actual: TypeTag,
}

/// A name collision at action creation: the name already identifies an
/// action in the session. Fatal only to the one creation call.
#[derive(Clone, Debug)]
pub struct DuplicateAction {
    pub name: String,
}

} // verus!
