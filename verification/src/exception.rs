use vstd::prelude::*;

verus! {

/// The one error kind of this library: a parameter-validation failure,
/// carrying a human-readable message.
#[derive(Debug, PartialEq)]
pub struct NetworkRexError {
    pub message: String,
}

} // verus!
