use vstd::prelude::*;

verus! {

/// Error type surfaced to callers of the migration engine.
///
/// Every failure kind the engine can hit — missing migrations directory,
/// a file-system read error, content drift of an already-applied script,
/// a database failure, or a clock that reads before the epoch — is fatal
/// to the run and is reported through this one type: a human-readable
/// message plus, where a lower-level failure caused it, that failure
/// rendered as text.
#[derive(Debug)]
#[must_use]
pub struct ClickhouseUtilsError {
    /// Human-readable description of what went wrong.
    pub message: String,
    /// The underlying failure rendered as text, where one exists.
    pub cause: Option<String>,
}

impl ClickhouseUtilsError {
    /// Creates an error carrying `message` and no underlying cause.
    pub fn new(message: String) -> (e: Self)
        ensures
            e.message@ == message@,
            e.cause is None,
    {
        ClickhouseUtilsError { message, cause: None }
    }

    /// Creates an error carrying `message` and the text of the underlying
    /// failure that caused it.
    pub fn with_cause(message: String, cause: String) -> (e: Self)
        ensures
            e.message@ == message@,
            e.cause == Some(cause),
    {
        ClickhouseUtilsError { message, cause: Some(cause) }
    }

    /// Consumes the error and hands back the text of the underlying
    /// failure, where one was recorded.
    pub fn into_inner(self) -> (r: Option<String>)
        ensures
            r == self.cause,
    {
        self.cause
    }

    /// The human-readable description of the error.
    pub fn message(&self) -> (r: &str)
        ensures
            r@ == self.message@,
    {
        self.message.as_str()
    }
}

} // verus!
