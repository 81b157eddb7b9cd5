//! The configuration of one run and the classification of its patterns.

use crate::job::Job;
use crate::job::classifies;
use vstd::prelude::*;

verus! {

/// Count lines of files: one run's configuration. A worker count of zero
/// stands for the number of available processing units.
pub struct Cmd {
    /// Do not use .gitignore and .ignore files during walks.
    pub no_ignore: bool,
    /// Do not show non-fatal error messages.
    pub quiet: bool,
    /// Follow symbolic links during walks.
    pub follow_links: bool,
    /// Number of parallel jobs; zero means all available cores.
    pub n_jobs: usize,
    /// The files or glob patterns to count lines of.
    pub args: Vec<String>,
    /// Read lines from standard input instead of walking files.
    pub read_stdin: bool,
}

impl Cmd {
    /// Classify every pattern of the run, in order: the decision part of
    /// the dispatch pipeline. The caller drives each resulting job, either
    /// counting the named file or walking from the root it specifies.
    pub fn jobs(&self) -> (v: Vec<Job>)
        ensures
            v@.len() == self.args@.len(),
            forall|i: int|
                0 <= i < v@.len() ==> classifies(self.args@[i]@, #[trigger] v@[i]),
    {
        let mut v: Vec<Job> = Vec::new();
        let mut i: usize = 0;
        while i < self.args.len()
            invariant
                0 <= i <= self.args@.len(),
                v@.len() == i,
                forall|t: int|
                    0 <= t < i ==> classifies(self.args@[t]@, #[trigger] v@[t]),
            decreases self.args@.len() - i,
        {
            let j = Job::new(self.args[i].as_str());
            v.push(j);
            i = i + 1;
        }
        v
    }
}

} // verus!
