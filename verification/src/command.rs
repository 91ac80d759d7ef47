//! What a command left behind.

use vstd::prelude::*;

verus! {

/// The outcome of a command that ran to its end.
pub struct CommandOutput {
    /// Whether it exited with status zero.
    pub success: bool,
    /// What it wrote to its standard output.
    pub stdout: Vec<u8>,
}

} // verus!
