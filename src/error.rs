//! Error type of the sizing engine.
use vstd::prelude::*;

verus! {

/// Failure of an operation.
///
/// `Ignore` is an expected no-op: the caller takes no action and the state is
/// left as it was. `Msg` reports a programming error, such as an id that is not
/// among the live panels.
#[derive(Debug, PartialEq, Eq)]
pub enum Error {
    Msg(String),
    Ignore,
}

/// Result type of the sizing engine.
pub type Result<T> = core::result::Result<T, Error>;

} // verus!
