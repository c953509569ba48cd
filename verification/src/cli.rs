//! Command-line options and the settings derived from them.
//!
//! Parsing the arguments is left to the program; this module holds the options and the
//! choices made from them.
use vstd::prelude::*;

verus! {

/// Maximum recommended threads when working on a mechanical HDD.
pub const MAX_HDD_THREADS: usize = 1;

/// Maximum recommended threads when working on an SSD/NVMe.
pub const MAX_SSD_THREADS: usize = 4;

/// Help text of the `--jobs` option, naming the default thread limits.
pub const JOBS_HELP: &'static str = "Number of threads to use [default: auto-detected (1 for HDD, 4 for SSD)]";

/// The options of the tool.
pub struct Cli {
    /// Target MKV file or directory to process
    pub path: String,
    /// Recursively traverse subdirectories when PATH is a directory
    pub recursive: bool,
    /// Verbosity level (-v for info, -vv for debug)
    pub verbose: u8,
    /// Perform a dry run without modifying any files on disk
    pub dry_run: bool,
    /// Number of worker threads, when given
    pub jobs: Option<usize>,
}

/// The worker count: an explicit `--jobs` wins; otherwise one thread on a mechanical
/// disk, to avoid head thrashing, and four on solid-state storage.
pub fn thread_count(jobs: Option<usize>, rotational: bool) -> (n: usize)
    ensures
        n == match jobs {
            Some(j) => j,
            None => if rotational {
                MAX_HDD_THREADS
            } else {
                MAX_SSD_THREADS
            },
        },
{
    match jobs {
        Some(j) => j,
        None => if rotational {
            MAX_HDD_THREADS
        } else {
            MAX_SSD_THREADS
        },
    }
}

/// How much the tool logs.
#[derive(Debug, Clone, Copy, PartialEq, Eq)]
pub enum LogLevel {
    Warn,
    Info,
    Debug,
}

/// The log level for a verbosity count: warnings only by default, `-v` adds
/// information, `-vv` and more add debugging output.
pub fn log_level(verbose: u8) -> (l: LogLevel)
    ensures
        l == if verbose == 0 {
            LogLevel::Warn
        } else if verbose == 1 {
            LogLevel::Info
        } else {
            LogLevel::Debug
        },
{
    if verbose == 0 {
        LogLevel::Warn
    } else if verbose == 1 {
        LogLevel::Info
    } else {
        LogLevel::Debug
    }
}

} // verus!
