//! Shared error taxonomy for every layer of the codec.

use vstd::prelude::*;

verus! {

/// Errors reported by the codec layers.
///
/// `Bounds` covers buffers that are too short and numeric values outside
/// their allowed range; `IncorrectTag` covers unparsable tag bytes or tag
/// names; `IncorrectFieldData` names a field whose content had the wrong
/// shape; `MissingField` names a required field that was absent; and
/// `IncorrectData` covers any other structural violation.
#[derive(Debug, Clone)]
pub enum Error {
    Bounds(String),
    IncorrectTag(String),
    IncorrectFieldData { field_name: String, should_be: String },
    MissingField(String),
    IncorrectData(String),
}

impl Error {
    pub fn incorrect_field_data(field_name: &str, should_be: &str) -> (r: Self)
        ensures
            r matches Error::IncorrectFieldData { field_name: f, should_be: s }
                && f@ == field_name@ && s@ == should_be@,
    {
        Error::IncorrectFieldData {
            field_name: field_name.to_owned(),
            should_be: should_be.to_owned(),
        }
    }
}

impl vstd::std_specs::cmp::PartialEqSpecImpl for Error {
    open spec fn obeys_eq_spec() -> bool {
        true
    }

    open spec fn eq_spec(&self, other: &Error) -> bool {
        match (self, other) {
            (Error::Bounds(a), Error::Bounds(b)) => a@ == b@,
            (Error::IncorrectTag(a), Error::IncorrectTag(b)) => a@ == b@,
            (
                Error::IncorrectFieldData { field_name: f1, should_be: s1 },
                Error::IncorrectFieldData { field_name: f2, should_be: s2 },
            ) => f1@ == f2@ && s1@ == s2@,
            (Error::MissingField(a), Error::MissingField(b)) => a@ == b@,
            (Error::IncorrectData(a), Error::IncorrectData(b)) => a@ == b@,
            _ => false,
        }
    }
}

impl PartialEq for Error {
    fn eq(&self, other: &Error) -> (r: bool) {
        match (self, other) {
            (Error::Bounds(a), Error::Bounds(b)) => a.eq(b),
            (Error::IncorrectTag(a), Error::IncorrectTag(b)) => a.eq(b),
            (
                Error::IncorrectFieldData { field_name: f1, should_be: s1 },
                Error::IncorrectFieldData { field_name: f2, should_be: s2 },
            ) => f1.eq(f2) && s1.eq(s2),
            (Error::MissingField(a), Error::MissingField(b)) => a.eq(b),
            (Error::IncorrectData(a), Error::IncorrectData(b)) => a.eq(b),
            _ => false,
        }
    }
}

} // verus!
