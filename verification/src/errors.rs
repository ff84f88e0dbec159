use vstd::prelude::*;

verus! {

/// A fatal failure of an update run, carrying a human-readable message.
///
/// Condition failures of the store's conditional writes are *not* errors:
/// they are the expected "record not tracked" outcome and are handled at
/// every call site. A value of this type always aborts the remaining work
/// of the enclosing run.
#[derive(Debug)]
pub struct Error {
    pub msg: String,
}

impl Error {
    pub fn with_msg(msg: String) -> (e: Error)
        ensures
            e.msg == msg,
    {
        Error { msg }
    }
}

} // verus!
