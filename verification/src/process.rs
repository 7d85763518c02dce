//! The process descriptor: the immutable input to one run.

use crate::digest::Digest;
use crate::paths::{CacheDest, CacheName, RelativePath};
use vstd::prelude::*;

verus! {

/// A declarative description of a process to run: command line, environment,
/// declared inputs and outputs, cache mounts, and timeout.
pub struct Process {
    /// The command line; the first element is the executable.
    pub argv: Vec<String>,
    /// Environment variables, unique keys. The host's environment is not
    /// inherited: this mapping is exactly what the process sees.
    pub env: Vec<(String, String)>,
    /// Where inside the sandbox to run; the sandbox root when absent.
    pub working_directory: Option<RelativePath>,
    /// The digest of the input tree to materialize into the sandbox.
    pub input_files: Option<Digest>,
    /// Declared output files to capture after the run.
    pub output_files: Vec<RelativePath>,
    /// Declared output directories to capture after the run.
    pub output_directories: Vec<RelativePath>,
    /// If the run takes longer than this, it is terminated.
    pub timeout_millis: Option<u64>,
    /// A label used only in diagnostics.
    pub description: String,
    /// An absolute host path mounted at the conventional `.jdk` link.
    pub jdk_home: Option<String>,
    /// Validated cache name to validated sandbox-relative mount path.
    pub append_only_caches: Vec<(CacheName, CacheDest)>,
}

impl Process {
    /// A descriptor with the given command line and everything else empty.
    pub fn new(argv: Vec<String>) -> (r: Process)
        requires
            argv@.len() > 0,
        ensures
            r.argv == argv,
            r.env@.len() == 0,
            r.working_directory is None,
            r.input_files is None,
            r.output_files@.len() == 0,
            r.output_directories@.len() == 0,
            r.timeout_millis is None,
            r.description@ == Seq::<char>::empty(),
            r.jdk_home is None,
            r.append_only_caches@.len() == 0,
    {
        Process {
            argv,
            env: Vec::new(),
            working_directory: None,
            input_files: None,
            output_files: Vec::new(),
            output_directories: Vec::new(),
            timeout_millis: None,
            description: String::new(),
            jdk_home: None,
            append_only_caches: Vec::new(),
        }
    }

    /// Replace the environment.
    pub fn env(self, env: Vec<(String, String)>) -> (r: Process)
        ensures
            r == (Process { env, ..self }),
    {
        Process { env, ..self }
    }

    /// Replace the declared output files.
    pub fn output_files(self, output_files: Vec<RelativePath>) -> (r: Process)
        ensures
            r == (Process { output_files, ..self }),
    {
        Process { output_files, ..self }
    }

    /// Replace the declared output directories.
    pub fn output_directories(self, output_directories: Vec<RelativePath>) -> (r: Process)
        ensures
            r == (Process { output_directories, ..self }),
    {
        Process { output_directories, ..self }
    }

    /// Replace the declared cache mounts.
    pub fn append_only_caches(self, append_only_caches: Vec<(CacheName, CacheDest)>) -> (r:
        Process)
        ensures
            r == (Process { append_only_caches, ..self }),
    {
        Process { append_only_caches, ..self }
    }
}

} // verus!
