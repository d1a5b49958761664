//! The shape of a matrix project as the CI server reports it, and the
//! decisions of the incremental puller: which jobs to visit, how many
//! builds to keep, which runs to fetch, and when a console log is wanted.

use vstd::prelude::*;

use crate::config::BuildStatus;
use crate::db::purge::name_in;
use crate::db::{has_run_url, Database, Job};

verus! {

/// One run cell of a build as the server lists it.
pub struct SparseRun {
    /// Run url.
    pub url: Vec<u8>,
    /// The build number the run belongs to.
    pub number: u32,
}

/// One build of a job as the server lists it.
pub struct SparseBuild {
    /// Build number.
    pub number: u32,
    /// Build url.
    pub url: Vec<u8>,
    /// Millisecond timestamp.
    pub timestamp: u64,
    /// Build status, if finished.
    pub result: Option<BuildStatus>,
    /// The run cells of the build.
    pub runs: Vec<SparseRun>,
}

/// One job as the server lists it, newest build first.
pub struct SparseJob {
    /// Job name.
    pub name: Vec<u8>,
    /// Job url.
    pub url: Vec<u8>,
    /// The job's builds, most recent first.
    pub builds: Vec<SparseBuild>,
}

/// A whole matrix project as one server answer.
pub struct SparseMatrixProject {
    /// The project's jobs.
    pub jobs: Vec<SparseJob>,
}

/// Jobs that can be represented as a cache job row.
pub trait AsJob {
    /// Convert `&self` to a cache job row value.
    fn as_job(&self) -> Job;
}

/// The most recent build number of a job listing: the maximum over its
/// builds.
pub open spec fn spec_last_build(builds: Seq<SparseBuild>) -> Option<u32>
    decreases builds.len(),
{
    if builds.len() == 0 {
        None
    } else {
        let rest = spec_last_build(builds.drop_last());
        match rest {
            None => Some(builds.last().number),
            Some(m) => if builds.last().number > m {
                Some(builds.last().number)
            } else {
                Some(m)
            },
        }
    }
}

impl AsJob for SparseJob {
    /// The cache row of this job listing: same name and url, with
    /// `last_build` the greatest build number listed, if any.
    fn as_job(&self) -> (r: Job)
        ensures
            r.name@ == self.name@,
            r.url@ == self.url@,
            r.last_build == spec_last_build(self.builds@),
    {
        let mut last: Option<u32> = None;
        let mut i: usize = 0;
        while i < self.builds.len()
            invariant
                i <= self.builds@.len(),
                last == spec_last_build(self.builds@.subrange(0, i as int)),
            decreases self.builds@.len() - i,
        {
            let n = self.builds[i].number;
            let new_last = match last {
                None => Some(n),
                Some(m) => if n > m {
                    Some(n)
                } else {
                    Some(m)
                },
            };
            proof {
                let cur = self.builds@.subrange(0, i as int + 1);
                assert(cur.drop_last() =~= self.builds@.subrange(0, i as int));
                assert(cur.last() == self.builds@[i as int]);
            }
            last = new_last;
            i += 1;
        }
        proof {
            assert(self.builds@.subrange(0, self.builds@.len() as int) =~= self.builds@);
        }
        Job {
            name: crate::db::clone_bytes(&self.name),
            url: crate::db::clone_bytes(&self.url),
            last_build: last,
        }
    }
}

/// Whether a run with this status gets its console log fetched: only
/// failed, unstable and aborted runs carry evidence worth parsing.
pub open spec fn spec_needs_console(status: Option<BuildStatus>) -> bool {
    status == Some(BuildStatus::Failure) || status == Some(BuildStatus::Unstable) || status == Some(
        BuildStatus::Aborted,
    )
}

/// Whether a run with this status gets its console log fetched.
pub fn needs_console(status: &Option<BuildStatus>) -> (r: bool)
    ensures
        r == spec_needs_console(*status),
{
    match status {
        Some(BuildStatus::Failure) => true,
        Some(BuildStatus::Unstable) => true,
        Some(BuildStatus::Aborted) => true,
        _ => false,
    }
}

/// Whether the run at `url` must be fetched: exactly when the cache has
/// no run under that url. A cache hit is reused without any request.
pub fn needs_fetch(db: &Database, url: &[u8]) -> (r: bool)
    ensures
        r == !has_run_url(db.runs@, url@),
{
    match db.get_run(url) {
        Some(_) => false,
        None => true,
    }
}

/// The indices of the jobs to pull: those whose name is not blocklisted,
/// in listing order.
pub fn jobs_to_pull(project: &SparseMatrixProject, blocklist: &Vec<Vec<u8>>) -> (r: Vec<usize>)
    ensures
        forall|i: int, j: int| 0 <= i < j < r@.len() ==> #[trigger] r@[i] < #[trigger] r@[j],
        forall|i: int| 0 <= i < r@.len() ==> #[trigger] r@[i] < project.jobs@.len(),
        forall|k: int|
            0 <= k < project.jobs@.len() ==> (r@.contains(k as usize) == !name_in(
                blocklist@,
                (#[trigger] project.jobs@[k]).name@,
            )),
{
    let mut r: Vec<usize> = Vec::new();
    let mut k: usize = 0;
    while k < project.jobs.len()
        invariant
            k <= project.jobs@.len(),
            forall|i: int, j: int| 0 <= i < j < r@.len() ==> #[trigger] r@[i] < #[trigger] r@[j],
            forall|i: int| 0 <= i < r@.len() ==> #[trigger] r@[i] < k,
            forall|v: int|
                0 <= v < k ==> (r@.contains(v as usize) == !name_in(
                    blocklist@,
                    (#[trigger] project.jobs@[v]).name@,
                )),
        decreases project.jobs@.len() - k,
    {
        let blocked = crate::db::purge::name_in_list(blocklist, project.jobs[k].name.as_slice());
        let ghost pre = r@;
        if !blocked {
            r.push(k);
        }
        proof {
            assert forall|v: int|
                0 <= v < k + 1 implies (r@.contains(v as usize) == !name_in(
                blocklist@,
                (#[trigger] project.jobs@[v]).name@,
            )) by {
                if v < k {
                    if pre.contains(v as usize) {
                        let i = choose|i: int| 0 <= i < pre.len() && pre[i] == v as usize;
                        assert(r@[i] == v as usize);
                    }
                    if r@.contains(v as usize) {
                        let i = choose|i: int| 0 <= i < r@.len() && r@[i] == v as usize;
                        if !blocked && i == r@.len() - 1 {
                            assert(r@[i] == k as usize);
                        } else {
                            assert(r@[i] == pre[i]);
                            assert(pre.contains(v as usize));
                        }
                    }
                } else {
                    if !blocked {
                        assert(r@[r@.len() - 1] == k as usize);
                        assert(r@.contains(k as usize));
                    } else {
                        if r@.contains(v as usize) {
                            let i = choose|i: int| 0 <= i < r@.len() && r@[i] == v as usize;
                            assert(r@[i] < k);
                        }
                    }
                }
            }
        }
        k += 1;
    }
    r
}

/// How many of the job's most recent builds are pulled: at most
/// `last_n_history`, from the front of the listing.
pub fn builds_to_pull(job: &SparseJob, last_n_history: usize) -> (r: usize)
    ensures
        r == if job.builds@.len() <= last_n_history {
            job.builds@.len() as int
        } else {
            last_n_history as int
        },
{
    if job.builds.len() <= last_n_history {
        job.builds.len()
    } else {
        last_n_history
    }
}

/// The indices of the candidate runs of a build: those whose number
/// equals the build's own number; other cells are skipped.
pub fn runs_to_pull(build: &SparseBuild) -> (r: Vec<usize>)
    ensures
        forall|i: int, j: int| 0 <= i < j < r@.len() ==> #[trigger] r@[i] < #[trigger] r@[j],
        forall|i: int| 0 <= i < r@.len() ==> #[trigger] r@[i] < build.runs@.len(),
        forall|i: int|
            0 <= i < r@.len() ==> build.runs@[#[trigger] r@[i] as int].number == build.number,
        forall|k: int|
            0 <= k < build.runs@.len() && (#[trigger] build.runs@[k]).number == build.number
                ==> r@.contains(k as usize),
{
    let mut r: Vec<usize> = Vec::new();
    let mut k: usize = 0;
    while k < build.runs.len()
        invariant
            k <= build.runs@.len(),
            forall|i: int, j: int| 0 <= i < j < r@.len() ==> #[trigger] r@[i] < #[trigger] r@[j],
            forall|i: int| 0 <= i < r@.len() ==> #[trigger] r@[i] < k,
            forall|i: int|
                0 <= i < r@.len() ==> build.runs@[#[trigger] r@[i] as int].number == build.number,
            forall|v: int|
                0 <= v < k && (#[trigger] build.runs@[v]).number == build.number ==> r@.contains(
                    v as usize,
                ),
        decreases build.runs@.len() - k,
    {
        let ghost pre = r@;
        if build.runs[k].number == build.number {
            r.push(k);
        }
        proof {
            assert forall|v: int|
                0 <= v < k + 1 && (#[trigger] build.runs@[v]).number == build.number
                    implies r@.contains(v as usize) by {
                if v < k {
                    assert(pre.contains(v as usize));
                    let i = choose|i: int| 0 <= i < pre.len() && pre[i] == v as usize;
                    assert(r@[i] == v as usize);
                } else {
                    assert(r@[r@.len() - 1] == k as usize);
                }
            }
        }
        k += 1;
    }
    r
}

} // verus!
