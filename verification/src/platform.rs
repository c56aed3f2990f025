//! The operating systems the mod loader supports.

use vstd::prelude::*;

verus! {

/// An operating system on which the game and the mod loader run.
#[derive(Clone, Copy, PartialEq, Eq, Structural, Debug)]
pub enum TargetOs {
    Windows,
    Linux,
    MacOs,
}

} // verus!
