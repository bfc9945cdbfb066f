//! What the tool is asked to do, and to which sinks.

use vstd::prelude::*;

verus! {

/// Which sinks an operation applies to.
#[derive(Debug, Clone, Copy, PartialEq, Eq)]
pub enum Target {
    All,
    Active,
}

/// The kind of change asked of the volume; a change of volume carries its
/// delta, and setting the volume its level, in percent, beside it.
#[derive(Debug, Clone, Copy, PartialEq, Eq)]
pub enum Operation {
    ToggleMute,
    ChangeVolume,
    SetVolume,
    NoOp,
}

/// The one-word commands of the tool.
#[derive(Debug, Clone, Copy, PartialEq, Eq)]
pub enum Command {
    VolumeUp,
    VolumeDown,
    ToggleMute,
    NoOp,
}

} // verus!
