//! The library's single error type: a human-readable rejection reason.
use vstd::prelude::*;

verus! {

/// A rejected input or a failed consistency check, with its reason.
#[derive(Debug, Clone)]
pub struct Error(pub String);

/// Results of this library.
pub type Result<T> = core::result::Result<T, Error>;

impl Error {
    /// The rejection reason.
    pub fn message(&self) -> (s: String)
        ensures
            s@ == self.0@,
    {
        self.0.clone()
    }
}

/// `Ok(())` when `ok` holds; otherwise an error that carries `message`.
pub fn require(ok: bool, message: &str) -> (res: Result<()>)
    ensures
        res is Ok <==> ok,
        res matches Err(e) ==> e.0@ == message@,
{
    if ok {
        Ok(())
    } else {
        Err(Error(message.to_owned()))
    }
}

} // verus!
