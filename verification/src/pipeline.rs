//! The decisions of the concurrent pipeline.
//!
//! The surrounding program owns the clock, the network and the disk: it
//! spawns the workers, runs the clones, reads each clone into a commit
//! graph, and removes each clone's directory when its extraction is over,
//! success or failure. The decisions themselves live here: what a worker
//! does on each turn, and what the single consumer does with each clone
//! outcome — merge the repository's authors into the shared results, or
//! leave the results untouched and report a warning that names the failing
//! URL. A failed repository never aborts the run.

use crate::authors::ResultSet;
use crate::errors::Error;
use crate::queue::WorkQueue;
use crate::repo::{extract_authors, reachable_authors, RepoData};
use vstd::prelude::*;
use vstd::string::StringExecFns;

verus! {

/// What one worker turn decides: clone the URL taken from the queue, or
/// exit because nothing is pending.
pub enum WorkerStep {
    Work(String),
    Exit,
}

/// One worker turn: atomically take the newest pending URL for cloning, or
/// exit when the queue is drained. A worker never waits for new work: the
/// queue was filled before any worker started.
pub fn worker_step(queue: &mut WorkQueue) -> (s: WorkerStep)
    ensures
        old(queue)@.len() == 0 ==> s is Exit && final(queue)@ == old(queue)@,
        old(queue)@.len() > 0 ==> (s matches WorkerStep::Work(u) && u@ == old(queue)@.last()
            && final(queue)@ == old(queue)@.drop_last()),
{
    match queue.pop() {
        Some(url) => WorkerStep::Work(url),
        None => WorkerStep::Exit,
    }
}

/// How the acquisition of one URL ended: a commit graph read from a
/// successful clone, or the clone's captured diagnostic output.
pub enum CloneOutcome {
    Cloned(RepoData),
    Failed(String),
}

/// One consumer step. A successful clone contributes the authors of every
/// commit reachable from its branches and tags, merged into the shared
/// results as a set; a failed one contributes nothing and yields the
/// warning to report, which names the failing URL. Either way the run goes
/// on.
pub fn process_outcome(results: &mut ResultSet, url: &str, outcome: CloneOutcome) -> (warning:
    Option<Error>)
    requires
        old(results).wf(),
        outcome matches CloneOutcome::Cloned(repo) ==> repo.wf(),
    ensures
        final(results).wf(),
        match outcome {
            CloneOutcome::Cloned(repo) => final(results)@ == old(results)@ + reachable_authors(
                &repo,
            ) && warning is None,
            CloneOutcome::Failed(diagnostic) => final(results)@ == old(results)@ && (
            warning matches Some(e) && e matches Error::CloneFailed { url: u, diagnostic: d } && u@
                == url@ && d == diagnostic),
        },
{
    match outcome {
        CloneOutcome::Cloned(repo) => {
            let authors = extract_authors(&repo);
            results.merge(&authors);
            None
        },
        CloneOutcome::Failed(diagnostic) => {
            Some(Error::CloneFailed { url: url.to_owned(), diagnostic })
        },
    }
}

} // verus!
