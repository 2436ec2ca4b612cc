//! Errors surfaced by the virtual machine.
use vstd::prelude::*;

verus! {

/// The sole user-visible error of the VM: arithmetic was dispatched on an
/// operand that is not a `Float`.
#[derive(Debug, Clone, Copy, PartialEq, Eq, Structural)]
pub enum LoxError {
    /// Error during script execution: an arithmetic operand was not a
    /// number.
    TypeError,
}

impl LoxError {
    /// A human-readable description of the error.
    pub fn describe(&self) -> (text: &'static str)
        ensures
            text@ == "runtime type error: arithmetic on a non-number"@,
    {
        "runtime type error: arithmetic on a non-number"
    }
}

} // verus!
