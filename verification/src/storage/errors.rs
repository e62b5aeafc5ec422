//! Errors of the label store.

use vstd::prelude::*;

verus! {

/// Why a label could not be created.
#[derive(Clone, Copy, PartialEq, Eq, Structural, Debug)]
pub enum LabelCreationError {
    /// A label of that name exists.
    AlreadyExists,
    /// Something else went wrong underneath.
    Unexpected,
}

impl LabelCreationError {
    /// The error in words.
    pub fn message(&self) -> (text: &'static str)
        ensures
            *self == LabelCreationError::AlreadyExists ==> text@ == "label already exists"@,
            *self == LabelCreationError::Unexpected ==> text@ == "unexpected error"@,
    {
        match self {
            LabelCreationError::AlreadyExists => "label already exists",
            LabelCreationError::Unexpected => "unexpected error",
        }
    }
}

} // verus!
