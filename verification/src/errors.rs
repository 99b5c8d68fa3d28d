//! The error taxonomy of the crate.
//!
//! Every failing function of the library says in its contract exactly which
//! variant it returns and on which inputs.

use vstd::prelude::*;

verus! {

/// A failure of the discovery or configuration logic.
///
/// Each variant carries the offending input so a caller can report it:
/// - `Parse`: malformed CIDR or subnet text, carrying that text;
/// - `Resolution`: a hostname that could not be resolved, or resolved to no
///   address, carrying the hostname;
/// - `Fetch`: the provider catalog could not be fetched or decoded, carrying
///   a description of the source;
/// - `Filesystem`: a backup read or write failed, carrying the path;
/// - `InvalidCommand`: a command line was empty after tokenization, carrying
///   the line;
/// - `Execution`: a subprocess failed to spawn or exited non-zero, carrying
///   the exact command line.
#[derive(Debug)]
pub enum RouterError {
    Parse(String),
    Resolution(String),
    Fetch(String),
    Filesystem(String),
    InvalidCommand(String),
    Execution(String),
}

} // verus!
