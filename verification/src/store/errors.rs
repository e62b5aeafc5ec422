//! Errors of the store of named graphs.

use crate::storage::errors::LabelCreationError;
use vstd::prelude::*;

verus! {

/// Why a named graph could not be created.
#[derive(Clone, Copy, PartialEq, Eq, Structural, Debug)]
pub enum NamedGraphCreationError {
    /// A graph of that name exists.
    AlreadyExists,
    /// Something else went wrong underneath.
    Unexpected,
}

impl NamedGraphCreationError {
    /// The error in words.
    pub fn message(&self) -> (text: &'static str)
        ensures
            *self == NamedGraphCreationError::AlreadyExists ==> text@
                == "named graph already exists"@,
            *self == NamedGraphCreationError::Unexpected ==> text@ == "unexpected error"@,
    {
        match self {
            NamedGraphCreationError::AlreadyExists => "named graph already exists",
            NamedGraphCreationError::Unexpected => "unexpected error",
        }
    }
}

impl From<LabelCreationError> for NamedGraphCreationError {
    fn from(e: LabelCreationError) -> (error: NamedGraphCreationError) {
        match e {
            LabelCreationError::AlreadyExists => NamedGraphCreationError::AlreadyExists,
            LabelCreationError::Unexpected => NamedGraphCreationError::Unexpected,
        }
    }
}

impl vstd::std_specs::convert::FromSpecImpl<LabelCreationError> for NamedGraphCreationError {
    open spec fn obeys_from_spec() -> bool {
        true
    }

    open spec fn from_spec(e: LabelCreationError) -> NamedGraphCreationError {
        match e {
            LabelCreationError::AlreadyExists => NamedGraphCreationError::AlreadyExists,
            LabelCreationError::Unexpected => NamedGraphCreationError::Unexpected,
        }
    }
}

} // verus!
