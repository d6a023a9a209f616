use vstd::prelude::*;
use vstd::string::StringExecFns;

use crate::rojo::ProjectError;

verus! {

/// The error that opening a project answers with: a fixed code and the text
/// of the cause.
#[derive(Debug, PartialEq, Eq)]
pub struct ProjectCommandError {
    pub code: String,
    pub message: String,
}

impl ProjectCommandError {
    /// The answer to a failed project load.
    pub fn from(error: ProjectError) -> (answer: Self)
        ensures
            answer.code@ == "project_load_failed"@,
            answer.message@ == error@.message(),
    {
        Self { code: String::from_str("project_load_failed"), message: error.message() }
    }
}

} // verus!
