//! Why a serialization step fails.
use vstd::prelude::*;

verus! {

/// The ways in which building a Candid message can fail.
#[derive(Clone, Copy, Debug, PartialEq, Eq)]
pub enum Error {
    /// A writer reported an I/O failure.
    Io,
    /// A value of the `empty` type was asked for; it has no encoding.
    EmptyType,
    /// A type variable that the environment does not bind.
    Unbound,
    /// A chain of type variables that leads back to itself.
    CyclicBinding,
    /// A type variable whose type table entry has not been built.
    VarTypeNotFound,
    /// A composite type whose type table entry has not been built.
    TypeNotFound,
    /// Two environments bind the same name to different types.
    InconsistentBinding,
    /// A value that does not have the type it is given.
    TypeMismatch,
    /// A record type's field that the record value lacks and that is
    /// neither optional nor reserved.
    MissingField,
    /// A variant value whose case the variant type lacks.
    VariantFieldNotFound,
}

} // verus!
