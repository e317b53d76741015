//! Error type reported by the argument-string parsers.
use vstd::prelude::*;

verus! {

pub type AppResult<T> = Result<T, AppError>;

/// A textual error, carrying a human-readable description.
#[derive(Debug)]
pub struct AppError {
    description: String,
}

impl AppError {
    /// The error's description.
    pub closed spec fn desc(&self) -> Seq<char> {
        self.description@
    }

    pub fn new(description: String) -> (r: AppError)
        ensures
            r.desc() == description@,
    {
        AppError { description }
    }

    /// Read the description back.
    pub fn message(&self) -> (r: &String)
        ensures
            r@ == self.desc(),
    {
        &self.description
    }
}

} // verus!
