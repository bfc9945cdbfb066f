//! Decision logic for a tool that changes the volume of the audio streams of
//! the active application: process-tree flattening, command-line decisions,
//! and the bookkeeping that tells when every sound sink has been handled.

pub mod tree;
pub mod process_tree;
pub mod text;
pub mod operations;
pub mod args;
pub mod sinks;
pub mod mainloop;
pub mod acyclic;
pub mod descendants;
