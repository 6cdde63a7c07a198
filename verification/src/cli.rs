//! What the command line hands the pipeline: the worker count and the
//! input identifiers. The surrounding program parses its arguments and
//! reads identifiers from a file or standard input; the values arrive here
//! as plain data.

use vstd::prelude::*;

verus! {

/// How many clone workers run at once when the caller does not say.
pub const DEFAULT_THREADS: usize = 10;

/// One invocation's inputs: the number of simultaneous clone workers, and
/// the URLs of repositories, users or organizations to scan.
pub struct Args {
    pub threads: usize,
    pub urls: Vec<String>,
}

impl Default for Args {
    /// No identifiers, and the stock worker count.
    fn default() -> (r: Args)
        ensures
            r.threads == DEFAULT_THREADS,
            r.urls@.len() == 0,
    {
        Args { threads: DEFAULT_THREADS, urls: Vec::new() }
    }
}

} // verus!
