//! Local-execution core of a build-action runner.
//!
//! Given a declarative description of a process (command line, environment,
//! declared outputs, cache mounts, timeout), this library provides the
//! verified logic of a run: validation of names and paths, the sandbox
//! construction plan, signal-aware exit-code resolution, timeout diagnostics,
//! Merkle-tree assembly of captured outputs, reproduction-script text, and
//! the run's state machine. The surrounding I/O (filesystem, process control)
//! is left to a host layer that feeds plain values in and out.

pub mod digest;
pub mod outputs;
pub mod paths;
pub mod process;
pub mod run;
pub mod sandbox;

use vstd::prelude::*;

verus! {

/// A convenient default timeout: one second, in milliseconds.
pub fn one_second() -> (r: Option<u64>)
    ensures
        r == Some(1000u64),
{
    Some(1000)
}

} // verus!
