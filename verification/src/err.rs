//! The error of the bench: a message.

use vstd::prelude::*;

use crate::text::join2;

verus! {

/// A refused request or a failed operation, with its message.
#[derive(Debug)]
pub struct AppError(pub String);

impl AppError {
    /// The message.
    pub fn message(&self) -> (r: &str)
        ensures
            r@ == self.0@,
    {
        self.0.as_str()
    }

    /// The error for what the database reports.
    pub fn database(detail: &str) -> (r: AppError)
        ensures
            r.0@ == "database error: "@ + detail@,
    {
        AppError(join2("database error: ", detail))
    }

    /// The error for what the JSON reader or writer reports.
    pub fn json(detail: &str) -> (r: AppError)
        ensures
            r.0@ == "json error: "@ + detail@,
    {
        AppError(join2("json error: ", detail))
    }
}

/// Fails with a message.
pub fn bad<T>(msg: &str) -> (r: Result<T, AppError>)
    ensures
        r matches Err(e) && e.0@ == msg@,
{
    Err(AppError(msg.to_owned()))
}

} // verus!
