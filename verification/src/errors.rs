//! The error taxonomy of the harness.

use vstd::prelude::*;

verus! {

/// Everything that can go wrong while loading data or evaluating a plan.
#[derive(Debug)]
pub enum Error {
    /// A directory or file could not be read. Raised by the surrounding
    /// application during loading; the verified core never produces it.
    Io { detail: String },
    /// A partition file is not in the expected columnar format.
    Format { detail: String },
    /// A later partition's column names or types differ from the first
    /// partition's schema.
    SchemaMismatch,
    /// A plan refers to an unknown column, or would produce duplicate
    /// column names.
    Plan { col: String },
    /// An operator was applied to a column of an incompatible type.
    TypeErr { col: String },
    /// A join key column is missing from one side of a join.
    JoinKey { col: String },
    /// Integer arithmetic left the 64-bit range during evaluation.
    Overflow,
}

/// Mathematical model of an [`Error`].
pub ghost enum ErrorV {
    Io(Seq<char>),
    Format(Seq<char>),
    SchemaMismatch,
    Plan(Seq<char>),
    TypeErr(Seq<char>),
    JoinKey(Seq<char>),
    Overflow,
}

impl View for Error {
    type V = ErrorV;

    open spec fn view(&self) -> ErrorV {
        match self {
            Error::Io { detail } => ErrorV::Io(detail@),
            Error::Format { detail } => ErrorV::Format(detail@),
            Error::SchemaMismatch => ErrorV::SchemaMismatch,
            Error::Plan { col } => ErrorV::Plan(col@),
            Error::TypeErr { col } => ErrorV::TypeErr(col@),
            Error::JoinKey { col } => ErrorV::JoinKey(col@),
            Error::Overflow => ErrorV::Overflow,
        }
    }
}

} // verus!
