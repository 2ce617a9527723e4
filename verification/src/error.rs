use vstd::prelude::*;

verus! {

/// The library's error: a human-readable reason.
#[derive(Debug)]
pub enum DexError {
    Other(String),
}

/// The error carrying exactly this message.
pub open spec fn is_error_with<T>(r: Result<T, DexError>, msg: Seq<char>) -> bool {
    r matches Err(DexError::Other(m)) && m@ == msg
}

} // verus!
