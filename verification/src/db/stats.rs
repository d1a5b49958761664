//! Statistics of the cache's read side, scoped to each job's most recent
//! build: run outcomes, job health, issue totals, and the runs that
//! failed without any classified evidence.

use vstd::prelude::*;

use crate::config::{BuildStatus, Field, Severity};
use crate::db::purge::{find_by_id, keep_rows};
use crate::db::{
    has_id, issue_contained, row_by_id, Database, InDatabase, IssueInfo, Job, JobBuild, Run,
};

verus! {

/// Statistics over the most recent build of every job.
pub struct Statistics {
    /// Jobs whose most recent build succeeded.
    pub successful_jobs: u64,
    /// All tracked jobs.
    pub total_jobs: u64,
    /// Ids of successful latest runs.
    pub successful: Vec<i64>,
    /// Ids of unstable latest runs.
    pub unstable: Vec<i64>,
    /// Ids of failed latest runs.
    pub failures: Vec<i64>,
    /// Ids of aborted latest runs.
    pub aborted: Vec<i64>,
    /// Ids of not-built latest runs.
    pub not_built: Vec<i64>,
    /// Findings on latest runs, metadata excluded.
    pub issues_found: u64,
    /// Ids of failed, unstable or aborted latest runs without any
    /// non-metadata finding: unknown failures.
    pub unknown_runs: Vec<i64>,
}

/// The build has the greatest number among its job's builds.
pub open spec fn build_is_latest(builds: Seq<InDatabase<JobBuild>>, b: JobBuild) -> bool {
    forall|i: int|
        0 <= i < builds.len() && (#[trigger] builds[i]).item.job_id == b.job_id
            ==> builds[i].item.number <= b.number
}

/// The run belongs to its job's most recent build.
pub open spec fn run_is_latest(builds: Seq<InDatabase<JobBuild>>, r: Run) -> bool {
    has_id(builds, r.build_id) && build_is_latest(builds, row_by_id(builds, r.build_id).item)
}

/// The job's most recent build carries the given status.
pub open spec fn job_latest_status(
    builds: Seq<InDatabase<JobBuild>>,
    job: InDatabase<Job>,
    status: Option<BuildStatus>,
) -> bool {
    exists|i: int|
        0 <= i < builds.len() && (#[trigger] builds[i]).item.job_id == job.id && build_is_latest(
            builds,
            builds[i].item,
        ) && builds[i].item.status == status
}

/// The finding sits on a latest run and is not metadata.
pub open spec fn issue_counted(db: Database, iss: IssueInfo) -> bool {
    &&& has_id(db.runs@, iss.run_id)
    &&& run_is_latest(db.builds@, row_by_id(db.runs@, iss.run_id).item)
    &&& has_id(db.tags@, iss.tag_id)
    &&& row_by_id(db.tags@, iss.tag_id).item.severity != Severity::Metadata
}

/// The run failed without any classified, non-metadata evidence.
pub open spec fn run_unknown(db: Database, r: InDatabase<Run>) -> bool {
    &&& run_is_latest(db.builds@, r.item)
    &&& (r.item.status == Some(BuildStatus::Failure) || r.item.status == Some(
        BuildStatus::Unstable,
    ) || r.item.status == Some(BuildStatus::Aborted))
    &&& forall|k: int|
        0 <= k < db.issues@.len() && (#[trigger] db.issues@[k]).item.run_id == r.id ==> (has_id(
            db.tags@,
            db.issues@[k].item.tag_id,
        ) && row_by_id(db.tags@, db.issues@[k].item.tag_id).item.severity == Severity::Metadata)
}

/// Whether the run at table index `w` sits under its job's most recent
/// build.
fn run_latest_exec(db: &Database, w: usize) -> (r: bool)
    requires
        db.wf(),
        w < db.runs@.len(),
    ensures
        r == run_is_latest(db.builds@, db.runs@[w as int].item),
{
    let bid = db.runs[w].item.build_id;
    let bw = match find_by_id(&db.builds, bid) {
        Some(b) => b,
        None => {
            proof {
                assert(has_id(db.builds@, db.runs@[w as int].item.build_id));
                assert(false);
            }
            0
        },
    };
    let number = db.builds[bw].item.number;
    let job_id = db.builds[bw].item.job_id;
    let mut i: usize = 0;
    while i < db.builds.len()
        invariant
            db.wf(),
            w < db.runs@.len(),
            i <= db.builds@.len(),
            bw < db.builds@.len(),
            row_by_id(db.builds@, db.runs@[w as int].item.build_id) == db.builds@[bw as int],
            has_id(db.builds@, db.runs@[w as int].item.build_id),
            number == db.builds@[bw as int].item.number,
            job_id == db.builds@[bw as int].item.job_id,
            forall|k: int|
                0 <= k < i && (#[trigger] db.builds@[k]).item.job_id == job_id
                    ==> db.builds@[k].item.number <= number,
        decreases db.builds@.len() - i,
    {
        if db.builds[i].item.job_id == job_id && db.builds[i].item.number > number {
            proof {
                assert(db.builds@[i as int].item.job_id == db.builds@[bw as int].item.job_id);
                assert(!build_is_latest(db.builds@, db.builds@[bw as int].item));
            }
            return false;
        }
        i += 1;
    }
    true
}

/// The ids of every latest run with the given status, in table order.
fn runs_with_status(db: &Database, status: Option<BuildStatus>) -> (r: Vec<i64>)
    requires
        db.wf(),
    ensures
        forall|i: int, j: int| 0 <= i < j < r@.len() ==> #[trigger] r@[i] != #[trigger] r@[j],
        forall|i: int| 0 <= i < r@.len() ==> has_id(db.runs@, #[trigger] r@[i]),
        forall|w: int|
            0 <= w < db.runs@.len() ==> (r@.contains(#[trigger] db.runs@[w].id) == (run_is_latest(
                db.builds@,
                db.runs@[w].item,
            ) && db.runs@[w].item.status == status)),
{
    let mut r: Vec<i64> = Vec::new();
    let mut w: usize = 0;
    while w < db.runs.len()
        invariant
            db.wf(),
            w <= db.runs@.len(),
            forall|i: int, j: int| 0 <= i < j < r@.len() ==> #[trigger] r@[i] != #[trigger] r@[j],
            forall|i: int|
                0 <= i < r@.len() ==> exists|v: int|
                    0 <= v < w && #[trigger] r@[i] == db.runs@[v].id,
            forall|v: int|
                0 <= v < w ==> (r@.contains(#[trigger] db.runs@[v].id) == (run_is_latest(
                    db.builds@,
                    db.runs@[v].item,
                ) && db.runs@[v].item.status == status)),
        decreases db.runs@.len() - w,
    {
        let keep = run_latest_exec(db, w) && db.runs[w].item.status == status;
        let rid = db.runs[w].id;
        let ghost pre = r@;
        if keep {
            r.push(rid);
        }
        proof {
            assert(db.runs@[w as int].id == rid);
            if keep {
                assert(r@[r@.len() - 1] == rid);
                assert forall|i: int, j: int| 0 <= i < j < r@.len() implies #[trigger] r@[i]
                    != #[trigger] r@[j] by {
                    if j == r@.len() - 1 {
                        assert(r@[i] == pre[i]);
                        let v = choose|v: int| 0 <= v < w && #[trigger] pre[i] == db.runs@[v].id;
                        assert(db.runs@[v].id != db.runs@[w as int].id);
                    } else {
                        assert(r@[i] == pre[i] && r@[j] == pre[j]);
                    }
                }
            } else {
                assert(!pre.contains(rid)) by {
                    if pre.contains(rid) {
                        let i = choose|i: int| 0 <= i < pre.len() && pre[i] == rid;
                        let v = choose|v: int| 0 <= v < w && #[trigger] pre[i] == db.runs@[v].id;
                        assert(db.runs@[v].id != db.runs@[w as int].id);
                    }
                }
            }
            assert forall|v: int|
                0 <= v < w + 1 implies (r@.contains(#[trigger] db.runs@[v].id) == (run_is_latest(
                db.builds@,
                db.runs@[v].item,
            ) && db.runs@[v].item.status == status)) by {
                if v < w {
                    if pre.contains(db.runs@[v].id) {
                        let i = choose|i: int| 0 <= i < pre.len() && pre[i] == db.runs@[v].id;
                        assert(r@[i] == db.runs@[v].id);
                    }
                    if r@.contains(db.runs@[v].id) {
                        let i = choose|i: int| 0 <= i < r@.len() && r@[i] == db.runs@[v].id;
                        if keep && i == r@.len() - 1 {
                            assert(db.runs@[v].id != db.runs@[w as int].id);
                            assert(false);
                        } else {
                            assert(r@[i] == pre[i]);
                            assert(pre.contains(db.runs@[v].id));
                        }
                    }
                } else {
                    if keep {
                        assert(r@.contains(db.runs@[v].id));
                    } else {
                        if r@.contains(db.runs@[v].id) {
                            assert(pre.contains(rid));
                        }
                    }
                }
            }
        }
        w += 1;
    }
    proof {
        assert forall|i: int| 0 <= i < r@.len() implies has_id(db.runs@, #[trigger] r@[i]) by {
            let v = choose|v: int| 0 <= v < db.runs@.len() && #[trigger] r@[i] == db.runs@[v].id;
            assert(db.runs@[v].id == r@[i]);
        }
    }
    r
}

impl Statistics {
    /// Compute the cache's statistics, scoped to each job's most recent
    /// build.
    #[verifier::rlimit(60)]
    #[verifier::spinoff_prover]
    pub fn query(db: &Database) -> (r: Statistics)
        requires
            db.wf(),
            db.jobs@.len() <= u64::MAX,
            db.issues@.len() <= u64::MAX,
        ensures
            r.total_jobs == db.jobs@.len(),
            r.successful_jobs == keep_rows(
                db.jobs@,
                |j: InDatabase<Job>| job_latest_status(db.builds@, j, Some(BuildStatus::Success)),
            ).len(),
            r.issues_found == keep_rows(
                db.issues@,
                |i: InDatabase<IssueInfo>| issue_counted(*db, i.item),
            ).len(),
            forall|w: int|
                0 <= w < db.runs@.len() ==> (r.successful@.contains(#[trigger] db.runs@[w].id) == (
                run_is_latest(db.builds@, db.runs@[w].item) && db.runs@[w].item.status == Some(
                    BuildStatus::Success,
                ))),
            forall|w: int|
                0 <= w < db.runs@.len() ==> (r.failures@.contains(#[trigger] db.runs@[w].id) == (
                run_is_latest(db.builds@, db.runs@[w].item) && db.runs@[w].item.status == Some(
                    BuildStatus::Failure,
                ))),
            forall|w: int|
                0 <= w < db.runs@.len() ==> (r.unstable@.contains(#[trigger] db.runs@[w].id) == (
                run_is_latest(db.builds@, db.runs@[w].item) && db.runs@[w].item.status == Some(
                    BuildStatus::Unstable,
                ))),
            forall|w: int|
                0 <= w < db.runs@.len() ==> (r.aborted@.contains(#[trigger] db.runs@[w].id) == (
                run_is_latest(db.builds@, db.runs@[w].item) && db.runs@[w].item.status == Some(
                    BuildStatus::Aborted,
                ))),
            forall|w: int|
                0 <= w < db.runs@.len() ==> (r.not_built@.contains(#[trigger] db.runs@[w].id) == (
                run_is_latest(db.builds@, db.runs@[w].item) && db.runs@[w].item.status == Some(
                    BuildStatus::NotBuilt,
                ))),
            forall|w: int|
                0 <= w < db.runs@.len() ==> (r.unknown_runs@.contains(#[trigger] db.runs@[w].id)
                    == run_unknown(*db, db.runs@[w])),
            forall|i: int, j: int|
                0 <= i < j < r.successful@.len() ==> #[trigger] r.successful@[i]
                    != #[trigger] r.successful@[j],
            forall|i: int, j: int|
                0 <= i < j < r.unstable@.len() ==> #[trigger] r.unstable@[i]
                    != #[trigger] r.unstable@[j],
            forall|i: int, j: int|
                0 <= i < j < r.failures@.len() ==> #[trigger] r.failures@[i]
                    != #[trigger] r.failures@[j],
            forall|i: int, j: int|
                0 <= i < j < r.aborted@.len() ==> #[trigger] r.aborted@[i]
                    != #[trigger] r.aborted@[j],
            forall|i: int, j: int|
                0 <= i < j < r.not_built@.len() ==> #[trigger] r.not_built@[i]
                    != #[trigger] r.not_built@[j],
            forall|i: int, j: int|
                0 <= i < j < r.unknown_runs@.len() ==> #[trigger] r.unknown_runs@[i]
                    != #[trigger] r.unknown_runs@[j],
            forall|i: int| 0 <= i < r.successful@.len() ==> has_id(db.runs@, #[trigger] r.successful@[i]),
            forall|i: int| 0 <= i < r.unstable@.len() ==> has_id(db.runs@, #[trigger] r.unstable@[i]),
            forall|i: int| 0 <= i < r.failures@.len() ==> has_id(db.runs@, #[trigger] r.failures@[i]),
            forall|i: int| 0 <= i < r.aborted@.len() ==> has_id(db.runs@, #[trigger] r.aborted@[i]),
            forall|i: int| 0 <= i < r.not_built@.len() ==> has_id(db.runs@, #[trigger] r.not_built@[i]),
            forall|i: int|
                0 <= i < r.unknown_runs@.len() ==> has_id(db.runs@, #[trigger] r.unknown_runs@[i]),
    {
        let ghost p_job = |j: InDatabase<Job>| job_latest_status(
            db.builds@,
            j,
            Some(BuildStatus::Success),
        );
        let mut successful_jobs: u64 = 0;
        let mut w: usize = 0;
        proof {
            assert(keep_rows(db.jobs@.subrange(0, 0), p_job).len() == 0);
        }
        while w < db.jobs.len()
            invariant
                db.wf(),
                db.jobs@.len() <= u64::MAX,
                w <= db.jobs@.len(),
                p_job == (|j: InDatabase<Job>| job_latest_status(
                    db.builds@,
                    j,
                    Some(BuildStatus::Success),
                )),
                successful_jobs == keep_rows(db.jobs@.subrange(0, w as int), p_job).len(),
                successful_jobs <= w,
            decreases db.jobs@.len() - w,
        {
            let jid = db.jobs[w].id;
            let mut ok: bool = false;
            let mut i: usize = 0;
            while i < db.builds.len()
                invariant
                    db.wf(),
                    w < db.jobs@.len(),
                    jid == db.jobs@[w as int].id,
                    i <= db.builds@.len(),
                    ok ==> job_latest_status(
                        db.builds@,
                        db.jobs@[w as int],
                        Some(BuildStatus::Success),
                    ),
                    !ok ==> forall|k: int|
                        0 <= k < i ==> !((#[trigger] db.builds@[k]).item.job_id == jid
                            && build_is_latest(db.builds@, db.builds@[k].item)
                            && db.builds@[k].item.status == Some(BuildStatus::Success)),
                decreases db.builds@.len() - i,
            {
                if !ok && db.builds[i].item.job_id == jid && db.builds[i].item.status == Some(
                    BuildStatus::Success,
                ) {
                    let mut latest: bool = true;
                    let number = db.builds[i].item.number;
                    let mut k: usize = 0;
                    while k < db.builds.len()
                        invariant
                            db.wf(),
                            i < db.builds@.len(),
                            k <= db.builds@.len(),
                            number == db.builds@[i as int].item.number,
                            jid == db.builds@[i as int].item.job_id,
                            latest ==> forall|m: int|
                                0 <= m < k && (#[trigger] db.builds@[m]).item.job_id == jid
                                    ==> db.builds@[m].item.number <= number,
                            !latest ==> !build_is_latest(db.builds@, db.builds@[i as int].item),
                        decreases db.builds@.len() - k,
                    {
                        if latest && db.builds[k].item.job_id == jid && db.builds[k].item.number
                            > number {
                            latest = false;
                        }
                        k += 1;
                    }
                    if latest {
                        ok = true;
                    }
                }
                i += 1;
            }
            proof {
                let cur = db.jobs@.subrange(0, w as int + 1);
                assert(cur.drop_last() =~= db.jobs@.subrange(0, w as int));
                assert(cur.last() == db.jobs@[w as int]);
                if !ok {
                    assert(!p_job(db.jobs@[w as int]));
                }
            }
            if ok {
                successful_jobs = successful_jobs + 1;
            }
            w += 1;
        }
        proof {
            assert(db.jobs@.subrange(0, db.jobs@.len() as int) =~= db.jobs@);
        }

        let ghost p_iss = |i: InDatabase<IssueInfo>| issue_counted(*db, i.item);
        let mut issues_found: u64 = 0;
        let mut w: usize = 0;
        proof {
            assert(keep_rows(db.issues@.subrange(0, 0), p_iss).len() == 0);
        }
        while w < db.issues.len()
            invariant
                db.wf(),
                db.issues@.len() <= u64::MAX,
                w <= db.issues@.len(),
                p_iss == (|i: InDatabase<IssueInfo>| issue_counted(*db, i.item)),
                issues_found == keep_rows(db.issues@.subrange(0, w as int), p_iss).len(),
                issues_found <= w,
            decreases db.issues@.len() - w,
        {
            let iss = db.issues[w].item;
            proof {
                assert(issue_contained(db.runs@, db.tags@, db.artifacts@, db.issues@[w as int].item));
            }
            let tw = match find_by_id(&db.tags, iss.tag_id) {
                Some(t) => t,
                None => {
                    proof {
                        assert(false);
                    }
                    0
                },
            };
            let rw = match find_by_id(&db.runs, iss.run_id) {
                Some(t) => t,
                None => {
                    proof {
                        assert(false);
                    }
                    0
                },
            };
            let not_meta = match db.tags[tw].item.severity {
                Severity::Metadata => false,
                _ => true,
            };
            let counted = not_meta && run_latest_exec(db, rw);
            proof {
                let cur = db.issues@.subrange(0, w as int + 1);
                assert(cur.drop_last() =~= db.issues@.subrange(0, w as int));
                assert(cur.last() == db.issues@[w as int]);
                assert(row_by_id(db.runs@, iss.run_id) == db.runs@[rw as int]);
                assert(counted == p_iss(db.issues@[w as int]));
            }
            if counted {
                issues_found = issues_found + 1;
            }
            w += 1;
        }
        proof {
            assert(db.issues@.subrange(0, db.issues@.len() as int) =~= db.issues@);
        }

        // The runs that failed without any non-metadata finding.
        let mut unknown_runs: Vec<i64> = Vec::new();
        let mut w: usize = 0;
        while w < db.runs.len()
            invariant
                db.wf(),
                w <= db.runs@.len(),
                forall|i: int, j: int|
                    0 <= i < j < unknown_runs@.len() ==> #[trigger] unknown_runs@[i]
                        != #[trigger] unknown_runs@[j],
                forall|i: int|
                    0 <= i < unknown_runs@.len() ==> exists|v: int|
                        0 <= v < w && #[trigger] unknown_runs@[i] == db.runs@[v].id,
                forall|v: int|
                    0 <= v < w ==> (unknown_runs@.contains(#[trigger] db.runs@[v].id)
                        == run_unknown(*db, db.runs@[v])),
            decreases db.runs@.len() - w,
        {
            let status_bad = needs_attention(&db.runs[w].item.status);
            let mut keep = status_bad && run_latest_exec(db, w);
            let rid = db.runs[w].id;
            if keep {
                let mut k: usize = 0;
                while k < db.issues.len()
                    invariant
                        db.wf(),
                        w < db.runs@.len(),
                        rid == db.runs@[w as int].id,
                        k <= db.issues@.len(),
                        keep ==> forall|m: int|
                            0 <= m < k && (#[trigger] db.issues@[m]).item.run_id == rid ==> (has_id(
                                db.tags@,
                                db.issues@[m].item.tag_id,
                            ) && row_by_id(db.tags@, db.issues@[m].item.tag_id).item.severity
                                == Severity::Metadata),
                        !keep ==> !run_unknown(*db, db.runs@[w as int]),
                    decreases db.issues@.len() - k,
                {
                    if keep && db.issues[k].item.run_id == rid {
                        proof {
                            assert(issue_contained(
                                db.runs@,
                                db.tags@,
                                db.artifacts@,
                                db.issues@[k as int].item,
                            ));
                        }
                        let tw = match find_by_id(&db.tags, db.issues[k].item.tag_id) {
                            Some(t) => t,
                            None => {
                                proof {
                                    assert(false);
                                }
                                0
                            },
                        };
                        let meta = match db.tags[tw].item.severity {
                            Severity::Metadata => true,
                            _ => false,
                        };
                        if !meta {
                            proof {
                                assert(row_by_id(db.tags@, db.issues@[k as int].item.tag_id)
                                    == db.tags@[tw as int]);
                            }
                            keep = false;
                        }
                    }
                    k += 1;
                }
            }
            let ghost pre = unknown_runs@;
            if keep {
                unknown_runs.push(rid);
            }
            proof {
                assert(db.runs@[w as int].id == rid);
                if keep {
                    assert(run_unknown(*db, db.runs@[w as int]));
                    assert forall|i: int, j: int|
                        0 <= i < j < unknown_runs@.len() implies #[trigger] unknown_runs@[i]
                        != #[trigger] unknown_runs@[j] by {
                        if j == unknown_runs@.len() - 1 {
                            assert(unknown_runs@[i] == pre[i]);
                            let v = choose|v: int|
                                0 <= v < w && #[trigger] pre[i] == db.runs@[v].id;
                            assert(db.runs@[v].id != db.runs@[w as int].id);
                        } else {
                            assert(unknown_runs@[i] == pre[i] && unknown_runs@[j] == pre[j]);
                        }
                    }
                }
                assert forall|v: int|
                    0 <= v < w + 1 implies (unknown_runs@.contains(#[trigger] db.runs@[v].id)
                    == run_unknown(*db, db.runs@[v])) by {
                    if v < w {
                        if pre.contains(db.runs@[v].id) {
                            let i = choose|i: int| 0 <= i < pre.len() && pre[i] == db.runs@[v].id;
                            assert(unknown_runs@[i] == db.runs@[v].id);
                        }
                        if unknown_runs@.contains(db.runs@[v].id) {
                            let i = choose|i: int|
                                0 <= i < unknown_runs@.len() && unknown_runs@[i] == db.runs@[v].id;
                            if keep && i == unknown_runs@.len() - 1 {
                                assert(db.runs@[v].id != db.runs@[w as int].id);
                                assert(false);
                            } else {
                                assert(unknown_runs@[i] == pre[i]);
                                assert(pre.contains(db.runs@[v].id));
                            }
                        }
                    } else {
                        if keep {
                            assert(unknown_runs@[unknown_runs@.len() - 1] == db.runs@[v].id);
                            assert(unknown_runs@.contains(db.runs@[v].id));
                        } else {
                            if unknown_runs@.contains(db.runs@[v].id) {
                                let i = choose|i: int|
                                    0 <= i < unknown_runs@.len() && unknown_runs@[i]
                                        == db.runs@[v].id;
                                let v2 = choose|v2: int|
                                    0 <= v2 < w && #[trigger] pre[i] == db.runs@[v2].id;
                                assert(db.runs@[v2].id != db.runs@[w as int].id);
                            }
                        }
                    }
                }
            }
            w += 1;
        }

        proof {
            assert forall|i: int| 0 <= i < unknown_runs@.len() implies has_id(
                db.runs@,
                #[trigger] unknown_runs@[i],
            ) by {
                let v = choose|v: int|
                    0 <= v < db.runs@.len() && #[trigger] unknown_runs@[i] == db.runs@[v].id;
                assert(db.runs@[v].id == unknown_runs@[i]);
            }
        }
        Statistics {
            successful_jobs,
            total_jobs: db.jobs.len() as u64,
            successful: runs_with_status(db, Some(BuildStatus::Success)),
            unstable: runs_with_status(db, Some(BuildStatus::Unstable)),
            failures: runs_with_status(db, Some(BuildStatus::Failure)),
            aborted: runs_with_status(db, Some(BuildStatus::Aborted)),
            not_built: runs_with_status(db, Some(BuildStatus::NotBuilt)),
            issues_found,
            unknown_runs,
        }
    }
}

/// Whether the status is one of failure, unstable or aborted.
fn needs_attention(status: &Option<BuildStatus>) -> (r: bool)
    ensures
        r == (*status == Some(BuildStatus::Failure) || *status == Some(BuildStatus::Unstable)
            || *status == Some(BuildStatus::Aborted)),
{
    match status {
        Some(BuildStatus::Failure) => true,
        Some(BuildStatus::Unstable) => true,
        Some(BuildStatus::Aborted) => true,
        _ => false,
    }
}


/// One similarity group scoped to the most recent builds and resolved
/// for the report: the group hash, one member's tag and resolved
/// snippet, and the member run ids.
pub struct LatestGroup {
    /// The group's 64-bit identifier.
    pub hash: u64,
    /// The tag of the resolved member finding.
    pub tag_id: i64,
    /// The resolved snippet bytes of that member finding.
    pub example: Vec<u8>,
    /// The run ids of all member findings, each listed once.
    pub related: Vec<i64>,
}

/// Whether the finding with id `issue_id` is stored under hash `h`.
pub open spec fn sim_member(
    sims: Seq<InDatabase<crate::db::SimilarityInfo>>,
    h: u64,
    issue_id: i64,
) -> bool {
    exists|i: int|
        0 <= i < sims.len() && (#[trigger] sims[i]).item.similarity_hash == h
            && sims[i].item.issue_id == issue_id
}

/// Whether the finding sits on a run of its job's most recent build.
pub open spec fn issue_on_latest(db: Database, issue_id: i64) -> bool {
    has_id(db.issues@, issue_id) && {
        let iss = row_by_id(db.issues@, issue_id).item;
        has_id(db.runs@, iss.run_id) && run_is_latest(
            db.builds@,
            row_by_id(db.runs@, iss.run_id).item,
        )
    }
}

/// Whether the similarity hash has a member finding on a latest build.
pub open spec fn hash_on_latest(db: Database, h: u64) -> bool {
    exists|i: int|
        0 <= i < db.similarities@.len() && (#[trigger] db.similarities@[i]).item.similarity_hash
            == h && issue_on_latest(db, db.similarities@[i].item.issue_id)
}

/// Whether some listed group carries the hash `h`.
pub open spec fn latest_hash_listed(groups: Seq<LatestGroup>, h: u64) -> bool {
    exists|g: int| 0 <= g < groups.len() && (#[trigger] groups[g]).hash == h
}

/// The group's tag and example are those of one of its member findings,
/// with the snippet resolved from the field the tag selects.
pub open spec fn group_resolved(db: Database, g: LatestGroup) -> bool {
    exists|m: i64|
        #[trigger] sim_member(db.similarities@, g.hash, m) && has_id(db.issues@, m) && {
            let iss = row_by_id(db.issues@, m).item;
            &&& g.tag_id == iss.tag_id
            &&& g.example@ == crate::parse::issue_text(
                db.runs@,
                db.artifacts@,
                row_by_id(db.tags@, iss.tag_id).item.field,
                iss,
            ).subrange(iss.snippet_start as int, iss.snippet_end as int)
        }
}

/// Whether `rid` is the run id of some finding stored under hash `h`.
pub open spec fn rel_witness(db: Database, h: u64, rid: i64) -> bool {
    exists|i: int|
        0 <= i < db.similarities@.len() && (#[trigger] db.similarities@[i]).item.similarity_hash
            == h && has_id(db.issues@, db.similarities@[i].item.issue_id) && row_by_id(
            db.issues@,
            db.similarities@[i].item.issue_id,
        ).item.run_id == rid
}

/// The related list holds exactly the member findings' run ids, each
/// once.
pub open spec fn related_ok(db: Database, g: LatestGroup) -> bool {
    &&& forall|x: int, y: int|
        0 <= x < y < g.related@.len() ==> #[trigger] g.related@[x] != #[trigger] g.related@[y]
    &&& forall|x: int|
        0 <= x < g.related@.len() ==> #[trigger] rel_witness(db, g.hash, g.related@[x])
    &&& forall|i: int|
        0 <= i < db.similarities@.len() && (#[trigger] db.similarities@[i]).item.similarity_hash
            == g.hash && has_id(db.issues@, db.similarities@[i].item.issue_id)
            ==> g.related@.contains(
            row_by_id(db.issues@, db.similarities@[i].item.issue_id).item.run_id,
        )
}

/// Resolve one finding's snippet bytes from the field its tag selects.
fn resolve_snippet(db: &Database, iss: IssueInfo) -> (r: Vec<u8>)
    requires
        db.wf(),
        issue_contained(db.runs@, db.tags@, db.artifacts@, iss),
    ensures
        r@ == crate::parse::issue_text(
            db.runs@,
            db.artifacts@,
            row_by_id(db.tags@, iss.tag_id).item.field,
            iss,
        ).subrange(iss.snippet_start as int, iss.snippet_end as int),
{
    let tw = match find_by_id(&db.tags, iss.tag_id) {
        Some(w) => w,
        None => {
            proof {
                assert(false);
            }
            0
        },
    };
    match db.tags[tw].item.field {
        Field::RunName => {
            let rw = match find_by_id(&db.runs, iss.run_id) {
                Some(w) => w,
                None => {
                    proof {
                        assert(false);
                    }
                    0
                },
            };
            crate::db::copy_range(
                &db.runs[rw].item.display_name,
                iss.snippet_start,
                iss.snippet_end,
            )
        },
        Field::Console => {
            let rw = match find_by_id(&db.runs, iss.run_id) {
                Some(w) => w,
                None => {
                    proof {
                        assert(false);
                    }
                    0
                },
            };
            match &db.runs[rw].item.log {
                Some(log) => crate::db::copy_range(log, iss.snippet_start, iss.snippet_end),
                None => {
                    proof {
                        assert(false);
                    }
                    Vec::new()
                },
            }
        },
        Field::Artifact => {
            let aid = match iss.artifact_id {
                Some(a) => a,
                None => {
                    proof {
                        assert(false);
                    }
                    0
                },
            };
            let aw = match find_by_id(&db.artifacts, aid) {
                Some(w) => w,
                None => {
                    proof {
                        assert(false);
                    }
                    0
                },
            };
            crate::db::copy_range(&db.artifacts[aw].item.contents, iss.snippet_start, iss.snippet_end)
        },
    }
}

/// The similarity groups scoped to each job's most recent build, one per
/// distinct hash with a member finding on a latest run, resolved for the
/// report: a member tag and snippet, and the member run ids.
#[verifier::rlimit(100)]
#[verifier::spinoff_prover]
pub fn latest_similarities(db: &Database) -> (r: Vec<LatestGroup>)
    requires
        db.wf(),
    ensures
        forall|a: int, b: int|
            0 <= a < b < r@.len() ==> (#[trigger] r@[a]).hash != (#[trigger] r@[b]).hash,
        forall|g: int| 0 <= g < r@.len() ==> hash_on_latest(*db, (#[trigger] r@[g]).hash),
        forall|w: int|
            0 <= w < db.similarities@.len() && hash_on_latest(
                *db,
                (#[trigger] db.similarities@[w]).item.similarity_hash,
            ) ==> latest_hash_listed(r@, db.similarities@[w].item.similarity_hash),
        forall|g: int| 0 <= g < r@.len() ==> group_resolved(*db, #[trigger] r@[g]),
        forall|g: int| 0 <= g < r@.len() ==> related_ok(*db, #[trigger] r@[g]),
{
    let mut r: Vec<LatestGroup> = Vec::new();
    let mut k: usize = 0;
    while k < db.similarities.len()
        invariant
            db.wf(),
            k <= db.similarities@.len(),
            forall|a: int, b: int|
                0 <= a < b < r@.len() ==> (#[trigger] r@[a]).hash != (#[trigger] r@[b]).hash,
            forall|g: int| 0 <= g < r@.len() ==> hash_on_latest(*db, (#[trigger] r@[g]).hash),
            forall|w: int|
                0 <= w < k && hash_on_latest(
                    *db,
                    (#[trigger] db.similarities@[w]).item.similarity_hash,
                ) ==> latest_hash_listed(r@, db.similarities@[w].item.similarity_hash),
            forall|g: int| 0 <= g < r@.len() ==> group_resolved(*db, #[trigger] r@[g]),
            forall|g: int| 0 <= g < r@.len() ==> related_ok(*db, #[trigger] r@[g]),
        decreases db.similarities@.len() - k,
    {
        let h = db.similarities[k].item.similarity_hash;
        let mut seen: bool = false;
        let mut g: usize = 0;
        while g < r.len()
            invariant
                g <= r@.len(),
                seen ==> latest_hash_listed(r@, h),
                !seen ==> forall|a: int| 0 <= a < g ==> (#[trigger] r@[a]).hash != h,
            decreases r@.len() - g,
        {
            if r[g].hash == h {
                seen = true;
            }
            g += 1;
        }
        if !seen {
            // One pass over the members: is any on a latest build, and
            // which runs do they sit on?
            let mut any_latest: bool = false;
            let mut related: Vec<i64> = Vec::new();
            let mut m: usize = 0;
            while m < db.similarities.len()
                invariant
                    db.wf(),
                    m <= db.similarities@.len(),
                    any_latest ==> hash_on_latest(*db, h),
                    !any_latest ==> forall|i: int|
                        0 <= i < m && (#[trigger] db.similarities@[i]).item.similarity_hash == h
                            ==> !issue_on_latest(*db, db.similarities@[i].item.issue_id),
                    forall|x: int, y: int|
                        0 <= x < y < related@.len() ==> #[trigger] related@[x]
                            != #[trigger] related@[y],
                    forall|x: int|
                        0 <= x < related@.len() ==> #[trigger] rel_witness(*db, h, related@[x]),
                    forall|i: int|
                        0 <= i < m && (#[trigger] db.similarities@[i]).item.similarity_hash == h
                            && has_id(db.issues@, db.similarities@[i].item.issue_id)
                            ==> related@.contains(
                            row_by_id(db.issues@, db.similarities@[i].item.issue_id).item.run_id,
                        ),
                decreases db.similarities@.len() - m,
            {
                if db.similarities[m].item.similarity_hash == h {
                    let iw = match find_by_id(&db.issues, db.similarities[m].item.issue_id) {
                        Some(w) => w,
                        None => {
                            proof {
                                assert(has_id(db.issues@, db.similarities@[m as int].item.issue_id));
                                assert(false);
                            }
                            0
                        },
                    };
                    let rid = db.issues[iw].item.run_id;
                    let rw = match find_by_id(&db.runs, rid) {
                        Some(w) => w,
                        None => {
                            proof {
                                assert(issue_contained(
                                    db.runs@,
                                    db.tags@,
                                    db.artifacts@,
                                    db.issues@[iw as int].item,
                                ));
                                assert(false);
                            }
                            0
                        },
                    };
                    if run_latest_exec(db, rw) {
                        proof {
                            assert(issue_on_latest(*db, db.similarities@[m as int].item.issue_id));
                            assert(hash_on_latest(*db, h));
                        }
                        any_latest = true;
                    }
                    proof {
                        assert(row_by_id(db.issues@, db.similarities@[m as int].item.issue_id)
                            == db.issues@[iw as int]);
                        assert(rel_witness(*db, h, rid));
                    }
                    let ghost pre_rel = related@;
                    if !crate::db::purge::contains_i64(&related, rid) {
                        related.push(rid);
                        proof {
                            assert(related@[related@.len() - 1] == rid);
                            assert forall|x: int, y: int|
                                0 <= x < y < related@.len() implies #[trigger] related@[x]
                                != #[trigger] related@[y] by {
                                if y == related@.len() - 1 {
                                    assert(related@[x] == pre_rel[x]);
                                    assert(!pre_rel.contains(rid));
                                    assert(pre_rel.contains(pre_rel[x]));
                                } else {
                                    assert(related@[x] == pre_rel[x] && related@[y] == pre_rel[y]);
                                }
                            }
                            assert forall|x: int|
                                0 <= x < related@.len() implies #[trigger] rel_witness(
                                *db,
                                h,
                                related@[x],
                            ) by {
                                if x < pre_rel.len() {
                                    assert(related@[x] == pre_rel[x]);
                                    assert(rel_witness(*db, h, pre_rel[x]));
                                } else {
                                    assert(related@[x] == rid);
                                }
                            }
                        }
                    }
                    proof {
                        assert(related@.contains(rid)) by {
                            if pre_rel.contains(rid) {
                                let x = choose|x: int| 0 <= x < pre_rel.len() && pre_rel[x] == rid;
                                assert(related@[x] == rid);
                            } else {
                                assert(related@[related@.len() - 1] == rid);
                            }
                        }
                        assert forall|i: int|
                            0 <= i < m + 1 && (#[trigger] db.similarities@[i]).item.similarity_hash
                                == h && has_id(db.issues@, db.similarities@[i].item.issue_id)
                                implies related@.contains(
                            row_by_id(db.issues@, db.similarities@[i].item.issue_id).item.run_id,
                        ) by {
                            if i < m {
                                let rid2 = row_by_id(
                                    db.issues@,
                                    db.similarities@[i].item.issue_id,
                                ).item.run_id;
                                assert(pre_rel.contains(rid2));
                                let x = choose|x: int| 0 <= x < pre_rel.len() && pre_rel[x] == rid2;
                                assert(related@[x] == rid2);
                            }
                        }
                    }
                }
                m += 1;
            }
            if any_latest {
                // Resolve one member: the first-appearance row itself.
                let iw = match find_by_id(&db.issues, db.similarities[k].item.issue_id) {
                    Some(w) => w,
                    None => {
                        proof {
                            assert(has_id(db.issues@, db.similarities@[k as int].item.issue_id));
                            assert(false);
                        }
                        0
                    },
                };
                let iss = db.issues[iw].item;
                proof {
                    assert(issue_contained(db.runs@, db.tags@, db.artifacts@, iss));
                }
                let example = resolve_snippet(db, iss);
                let ghost gid = db.similarities@[k as int].item.issue_id;
                let ghost pre_r = r@;
                let group = LatestGroup { hash: h, tag_id: iss.tag_id, example, related };
                proof {
                    assert(db.similarities@[k as int].item.similarity_hash == h);
                    assert(sim_member(db.similarities@, group.hash, gid));
                    assert(has_id(db.issues@, gid));
                    assert(row_by_id(db.issues@, gid) == db.issues@[iw as int]);
                    assert(group_resolved(*db, group));
                    assert(related_ok(*db, group));
                }
                r.push(group);
                proof {
                    assert(r@[r@.len() - 1].hash == h);
                    assert forall|a: int, b: int|
                        0 <= a < b < r@.len() implies (#[trigger] r@[a]).hash
                        != (#[trigger] r@[b]).hash by {
                        if b == r@.len() - 1 {
                            assert(r@[a] == pre_r[a]);
                        } else {
                            assert(r@[a] == pre_r[a] && r@[b] == pre_r[b]);
                        }
                    }
                    assert forall|g2: int|
                        0 <= g2 < r@.len() implies hash_on_latest(*db, (#[trigger] r@[g2]).hash)
                        && group_resolved(*db, r@[g2]) && related_ok(*db, r@[g2]) by {
                        if g2 < pre_r.len() {
                            assert(r@[g2] == pre_r[g2]);
                            assert(hash_on_latest(*db, pre_r[g2].hash));
                            assert(group_resolved(*db, pre_r[g2]));
                            assert(related_ok(*db, pre_r[g2]));
                        }
                    }
                    assert forall|w: int|
                        0 <= w < k + 1 && hash_on_latest(
                            *db,
                            (#[trigger] db.similarities@[w]).item.similarity_hash,
                        ) implies latest_hash_listed(
                        r@,
                        db.similarities@[w].item.similarity_hash,
                    ) by {
                        if w < k {
                            assert(latest_hash_listed(
                                pre_r,
                                db.similarities@[w].item.similarity_hash,
                            ));
                            let g3 = choose|g3: int|
                                0 <= g3 < pre_r.len() && (#[trigger] pre_r[g3]).hash
                                    == db.similarities@[w].item.similarity_hash;
                            assert(r@[g3].hash == db.similarities@[w].item.similarity_hash);
                        } else {
                            assert(r@[r@.len() - 1].hash
                                == db.similarities@[w].item.similarity_hash);
                        }
                    }
                }
            } else {
                proof {
                    assert forall|w: int|
                        0 <= w < k + 1 && hash_on_latest(
                            *db,
                            (#[trigger] db.similarities@[w]).item.similarity_hash,
                        ) implies latest_hash_listed(
                        r@,
                        db.similarities@[w].item.similarity_hash,
                    ) by {
                        if w == k {
                            // No member of this hash sits on a latest run.
                            if hash_on_latest(*db, h) {
                                let i = choose|i: int|
                                    0 <= i < db.similarities@.len()
                                        && (#[trigger] db.similarities@[i]).item.similarity_hash
                                        == h && issue_on_latest(
                                        *db,
                                        db.similarities@[i].item.issue_id,
                                    );
                                assert(!issue_on_latest(*db, db.similarities@[i].item.issue_id));
                                assert(false);
                            }
                        }
                    }
                }
            }
        } else {
            proof {
                assert forall|w: int|
                    0 <= w < k + 1 && hash_on_latest(
                        *db,
                        (#[trigger] db.similarities@[w]).item.similarity_hash,
                    ) implies latest_hash_listed(r@, db.similarities@[w].item.similarity_hash) by {}
            }
        }
        k += 1;
    }
    r
}

} // verus!
