//! Activation function selection.
//!
//! The scalar activation functions themselves (sigmoid, hyperbolic tangent,
//! rectifier) and their derivatives are numeric and live with the embedding
//! application; the verified engine tracks which of them a network has
//! selected through the tag defined here.

use vstd::prelude::*;

verus! {

/// Tag of the activation function a network currently uses.
///
/// The three built-in pairs are closed; `Custom` marks a caller-supplied
/// function and derivative.  Only the tag is ever persisted: custom functions
/// cannot round-trip through the persistence format and must be re-attached
/// by the caller after a load.
#[derive(Clone, Copy, Debug, PartialEq, Eq, Structural)]
pub enum Type {
    Sigmoid,
    Tanh,
    Relu,
    Custom,
}

/// The tag a network stores when `Type` `t` is selected through its
/// `activation` setter: selecting `Custom` there falls back to `Tanh`,
/// since no function pair comes with the bare tag.
pub open spec fn spec_selected(t: Type) -> Type {
    match t {
        Type::Sigmoid => Type::Sigmoid,
        Type::Tanh => Type::Tanh,
        Type::Relu => Type::Relu,
        Type::Custom => Type::Tanh,
    }
}

/// Executable form of [`spec_selected`].
pub fn selected(t: Type) -> (r: Type)
    ensures
        r == spec_selected(t),
{
    match t {
        Type::Sigmoid => Type::Sigmoid,
        Type::Tanh => Type::Tanh,
        Type::Relu => Type::Relu,
        Type::Custom => Type::Tanh,
    }
}

/// Code under which a tag is persisted.
pub open spec fn spec_code_of(t: Type) -> u64 {
    match t {
        Type::Sigmoid => 0,
        Type::Tanh => 1,
        Type::Relu => 2,
        Type::Custom => 3,
    }
}

/// Executable form of [`spec_code_of`].
pub fn code_of(t: Type) -> (r: u64)
    ensures
        r == spec_code_of(t),
{
    match t {
        Type::Sigmoid => 0,
        Type::Tanh => 1,
        Type::Relu => 2,
        Type::Custom => 3,
    }
}

/// Tag persisted under code `c`, if `c` is a valid code.
pub open spec fn spec_type_of_code(c: u64) -> Option<Type> {
    if c == 0 {
        Some(Type::Sigmoid)
    } else if c == 1 {
        Some(Type::Tanh)
    } else if c == 2 {
        Some(Type::Relu)
    } else if c == 3 {
        Some(Type::Custom)
    } else {
        None
    }
}

/// Executable form of [`spec_type_of_code`].
pub fn type_of_code(c: u64) -> (r: Option<Type>)
    ensures
        r == spec_type_of_code(c),
{
    if c == 0 {
        Some(Type::Sigmoid)
    } else if c == 1 {
        Some(Type::Tanh)
    } else if c == 2 {
        Some(Type::Relu)
    } else if c == 3 {
        Some(Type::Custom)
    } else {
        None
    }
}

/// A tag's code always decodes back to the tag.
pub proof fn lemma_code_round_trip(t: Type)
    ensures
        spec_type_of_code(spec_code_of(t)) == Some(t),
{
}

} // verus!
