//! The editor's error: a message.
use vstd::prelude::*;

verus! {

/// An error of the editor, with its message.
pub struct TiError(pub String);

/// The result of an action that may fail with a `TiError`.
pub type TiResult<T = ()> = Result<T, TiError>;

impl TiError {
    /// The message of the error.
    pub fn message(&self) -> (s: &String)
        ensures
            *s == self.0,
    {
        &self.0
    }
}

} // verus!
