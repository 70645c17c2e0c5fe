//! One-way directory synchronisation: snapshots, diffs, apply plans and the
//! per-slot session state machine that a server drives while a client pushes
//! a tree into a slot.

pub mod apply;
pub mod client;
pub mod data;
pub mod diff_algebra;
pub mod diffing;
pub mod errors;
pub mod order;
pub mod paths;
pub mod session;
pub mod snapshot;
pub mod state;
pub mod text;
