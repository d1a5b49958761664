//! The object-relational cache: rows for jobs, builds, runs, artifacts,
//! findings (issues), tags, and similarity groups, together with the
//! operations that keep its hierarchical referential integrity.
//!
//! Row ids are assigned from a single monotone counter, so every row id is
//! unique and stable for the life of the cache. Text is held as raw bytes;
//! a finding stores a half-open byte range into the field it was found in,
//! never a copy.

use vstd::prelude::*;

use crate::config::{BuildStatus, Field, Severity};

pub mod purge;
pub mod stats;

verus! {

/// A job: one named entry of the CI project.
pub struct Job {
    /// Unique name of the job.
    pub name: Vec<u8>,
    /// Job url.
    pub url: Vec<u8>,
    /// Number of the most recent build, if any.
    pub last_build: Option<u32>,
}

/// One numbered execution of a job.
pub struct JobBuild {
    /// Globally unique build url.
    pub url: Vec<u8>,
    /// Build status.
    pub status: Option<BuildStatus>,
    /// Build number.
    pub number: u32,
    /// Millisecond timestamp.
    pub timestamp: u64,
    /// Id of the owning job row.
    pub job_id: i64,
}

/// One cell of the matrix: a run of a build.
pub struct Run {
    /// Globally unique run url.
    pub url: Vec<u8>,
    /// Run status.
    pub status: Option<BuildStatus>,
    /// Display name of the run.
    pub display_name: Vec<u8>,
    /// Full console log, fetched only for failed, unstable or aborted runs.
    pub log: Option<Vec<u8>>,
    /// Catalog fingerprint the run was parsed with; `None` while unparsed.
    pub tag_schema: Option<u64>,
    /// Id of the owning build row.
    pub build_id: i64,
}

/// A downloaded artifact of a run.
pub struct Artifact {
    /// Relative path of the artifact.
    pub path: Vec<u8>,
    /// Byte contents, immutable after insert.
    pub contents: Vec<u8>,
    /// Id of the owning run row.
    pub run_id: i64,
}

/// File kind of an artifact's blob, as judged from its contents.
#[derive(Clone, Copy, Debug, PartialEq, Eq, Structural)]
pub enum BlobFormat {
    Png,
    Svg,
    Unknown,
    Utf8,
    Null,
}

/// A finding as persisted: a byte range into one field of a run.
#[derive(Clone, Copy, Debug, PartialEq, Eq, Structural)]
pub struct IssueInfo {
    /// Start of the snippet, inclusive byte offset.
    pub snippet_start: usize,
    /// End of the snippet, exclusive byte offset.
    pub snippet_end: usize,
    /// Id of the run the finding belongs to.
    pub run_id: i64,
    /// Id of the artifact the snippet points into, for artifact tags.
    pub artifact_id: Option<i64>,
    /// Id of the tag that produced the finding.
    pub tag_id: i64,
    /// Number of further byte-identical matches in the same field.
    pub duplicates: u64,
}

/// A finding with its snippet resolved to bytes.
pub struct Issue {
    /// The matched bytes.
    pub snippet: Vec<u8>,
    /// Id of the tag that produced the finding.
    pub tag_id: i64,
    /// Number of further byte-identical matches in the same field.
    pub duplicates: u64,
}

/// A tag of the catalog as persisted (without its pattern source).
pub struct TagInfo {
    /// Unique name of the tag.
    pub name: Vec<u8>,
    /// Description of the tag.
    pub desc: Vec<u8>,
    /// Which run field the tag applies to.
    pub field: Field,
    /// Severity category.
    pub severity: Severity,
}

/// Membership of one finding in one similarity group.
#[derive(Clone, Copy, Debug, PartialEq, Eq, Structural)]
pub struct SimilarityInfo {
    /// Group identifier shared by all members of the cluster.
    pub similarity_hash: u64,
    /// Id of the member finding.
    pub issue_id: i64,
}

/// An item of type `T` stored in the cache under a row id.
pub struct InDatabase<T> {
    /// Row id of `item`.
    pub id: i64,
    /// The stored item itself.
    pub item: T,
}

impl<T> InDatabase<T> {
    /// Wrap `item` under the row id `id`.
    pub fn new(id: i64, item: T) -> (r: InDatabase<T>)
        ensures
            r.id == id,
            r.item == item,
    {
        InDatabase { id, item }
    }

    /// Unwrap the stored item.
    pub fn item(self) -> (r: T)
        ensures
            r == self.item,
    {
        self.item
    }
}

/// Row ids within one table are pairwise distinct.
pub open spec fn ids_unique<T>(s: Seq<InDatabase<T>>) -> bool {
    forall|i: int, j: int| 0 <= i < j < s.len() ==> #[trigger] s[i].id != #[trigger] s[j].id
}

/// Every row id lies in `1 ..= next - 1`.
pub open spec fn ids_below<T>(s: Seq<InDatabase<T>>, next: i64) -> bool {
    forall|i: int| 0 <= i < s.len() ==> 1 <= #[trigger] s[i].id < next
}

/// Whether some row of the table has the id `id`.
pub open spec fn has_id<T>(s: Seq<InDatabase<T>>, id: i64) -> bool {
    exists|i: int| 0 <= i < s.len() && #[trigger] s[i].id == id
}

/// The row with id `id`; meaningful when `has_id(s, id)` and ids are unique.
pub open spec fn row_by_id<T>(s: Seq<InDatabase<T>>, id: i64) -> InDatabase<T> {
    s[choose|i: int| 0 <= i < s.len() && #[trigger] s[i].id == id]
}

/// Job names are pairwise distinct.
pub open spec fn job_names_unique(s: Seq<InDatabase<Job>>) -> bool {
    forall|i: int, j: int|
        0 <= i < j < s.len() ==> #[trigger] s[i].item.name@ != #[trigger] s[j].item.name@
}

/// Build urls are pairwise distinct.
pub open spec fn build_urls_unique(s: Seq<InDatabase<JobBuild>>) -> bool {
    forall|i: int, j: int|
        0 <= i < j < s.len() ==> #[trigger] s[i].item.url@ != #[trigger] s[j].item.url@
}

/// Run urls are pairwise distinct.
pub open spec fn run_urls_unique(s: Seq<InDatabase<Run>>) -> bool {
    forall|i: int, j: int|
        0 <= i < j < s.len() ==> #[trigger] s[i].item.url@ != #[trigger] s[j].item.url@
}

/// Tag names are pairwise distinct.
pub open spec fn tag_names_unique(s: Seq<InDatabase<TagInfo>>) -> bool {
    forall|i: int, j: int|
        0 <= i < j < s.len() ==> #[trigger] s[i].item.name@ != #[trigger] s[j].item.name@
}

/// Whether some job row carries the name `name`.
pub open spec fn has_job_named(s: Seq<InDatabase<Job>>, name: Seq<u8>) -> bool {
    exists|i: int| 0 <= i < s.len() && #[trigger] s[i].item.name@ == name
}

/// Whether some build row carries the url `url`.
pub open spec fn has_build_url(s: Seq<InDatabase<JobBuild>>, url: Seq<u8>) -> bool {
    exists|i: int| 0 <= i < s.len() && #[trigger] s[i].item.url@ == url
}

/// Whether some run row carries the url `url`.
pub open spec fn has_run_url(s: Seq<InDatabase<Run>>, url: Seq<u8>) -> bool {
    exists|i: int| 0 <= i < s.len() && #[trigger] s[i].item.url@ == url
}

/// Whether some tag row carries the name `name`.
pub open spec fn has_tag_named(s: Seq<InDatabase<TagInfo>>, name: Seq<u8>) -> bool {
    exists|i: int| 0 <= i < s.len() && #[trigger] s[i].item.name@ == name
}

/// The object-relational cache. One instance mirrors the whole store.
pub struct Database {
    pub jobs: Vec<InDatabase<Job>>,
    pub builds: Vec<InDatabase<JobBuild>>,
    pub runs: Vec<InDatabase<Run>>,
    pub artifacts: Vec<InDatabase<Artifact>>,
    pub issues: Vec<InDatabase<IssueInfo>>,
    pub tags: Vec<InDatabase<TagInfo>>,
    pub similarities: Vec<InDatabase<SimilarityInfo>>,
    /// Next row id to assign; strictly above every stored id.
    pub next_id: i64,
}

/// Referential containment of one finding: the snippet's byte range lies
/// within the field chosen by its tag's `field`, and its provenance ids
/// resolve.
pub open spec fn issue_contained(
    runs: Seq<InDatabase<Run>>,
    tags: Seq<InDatabase<TagInfo>>,
    artifacts: Seq<InDatabase<Artifact>>,
    iss: IssueInfo,
) -> bool {
    &&& has_id(runs, iss.run_id)
    &&& has_id(tags, iss.tag_id)
    &&& {
        let run = row_by_id(runs, iss.run_id).item;
        let tag = row_by_id(tags, iss.tag_id).item;
        match tag.field {
            Field::Console => {
                &&& iss.artifact_id is None
                &&& run.log is Some
                &&& iss.snippet_start <= iss.snippet_end <= run.log->0@.len()
            },
            Field::RunName => {
                &&& iss.artifact_id is None
                &&& iss.snippet_start <= iss.snippet_end <= run.display_name@.len()
            },
            Field::Artifact => {
                &&& iss.artifact_id is Some
                &&& has_id(artifacts, iss.artifact_id->0)
                &&& {
                    let art = row_by_id(artifacts, iss.artifact_id->0).item;
                    &&& art.run_id == iss.run_id
                    &&& iss.snippet_start <= iss.snippet_end <= art.contents@.len()
                }
            },
        }
    }
}

/// All findings of the table are contained, per `issue_contained`.
pub open spec fn issues_contained(
    runs: Seq<InDatabase<Run>>,
    tags: Seq<InDatabase<TagInfo>>,
    artifacts: Seq<InDatabase<Artifact>>,
    issues: Seq<InDatabase<IssueInfo>>,
) -> bool {
    forall|i: int|
        0 <= i < issues.len() ==> issue_contained(runs, tags, artifacts, #[trigger] issues[i].item)
}

/// The similarity row at `i` has a partner: another row with the same hash
/// and a different finding.
pub open spec fn sim_has_partner(s: Seq<InDatabase<SimilarityInfo>>, i: int) -> bool {
    exists|j: int|
        0 <= j < s.len() && #[trigger] s[j].item.similarity_hash == s[i].item.similarity_hash
            && s[j].item.issue_id != s[i].item.issue_id
}

/// Every similarity hash is shared by at least two distinct findings.
pub open spec fn no_singletons(s: Seq<InDatabase<SimilarityInfo>>) -> bool {
    forall|i: int| 0 <= i < s.len() ==> #[trigger] sim_has_partner(s, i)
}

/// Every row of `s` references an existing job row.
pub open spec fn builds_ref_jobs(
    s: Seq<InDatabase<JobBuild>>,
    jobs: Seq<InDatabase<Job>>,
) -> bool {
    forall|i: int| 0 <= i < s.len() ==> has_id(jobs, #[trigger] s[i].item.job_id)
}

/// Every row of `s` references an existing build row.
pub open spec fn runs_ref_builds(
    s: Seq<InDatabase<Run>>,
    builds: Seq<InDatabase<JobBuild>>,
) -> bool {
    forall|i: int| 0 <= i < s.len() ==> has_id(builds, #[trigger] s[i].item.build_id)
}

/// Every row of `s` references an existing run row.
pub open spec fn artifacts_ref_runs(
    s: Seq<InDatabase<Artifact>>,
    runs: Seq<InDatabase<Run>>,
) -> bool {
    forall|i: int| 0 <= i < s.len() ==> has_id(runs, #[trigger] s[i].item.run_id)
}

/// Every row of `s` references an existing finding row.
pub open spec fn sims_ref_issues(
    s: Seq<InDatabase<SimilarityInfo>>,
    issues: Seq<InDatabase<IssueInfo>>,
) -> bool {
    forall|i: int| 0 <= i < s.len() ==> has_id(issues, #[trigger] s[i].item.issue_id)
}

impl Database {
    /// Every similarity hash is shared by at least two distinct findings.
    pub open spec fn no_singleton_similarities(self) -> bool {
        no_singletons(self.similarities@)
    }

    /// Well-formedness of the whole cache: id discipline, key uniqueness,
    /// hierarchical referential integrity, snippet containment, and the
    /// no-singleton rule for similarity groups.
    pub open spec fn wf(self) -> bool {
        &&& 1 <= self.next_id
        &&& ids_unique(self.jobs@) && ids_below(self.jobs@, self.next_id)
        &&& ids_unique(self.builds@) && ids_below(self.builds@, self.next_id)
        &&& ids_unique(self.runs@) && ids_below(self.runs@, self.next_id)
        &&& ids_unique(self.artifacts@) && ids_below(self.artifacts@, self.next_id)
        &&& ids_unique(self.issues@) && ids_below(self.issues@, self.next_id)
        &&& ids_unique(self.tags@) && ids_below(self.tags@, self.next_id)
        &&& ids_unique(self.similarities@) && ids_below(self.similarities@, self.next_id)
        &&& job_names_unique(self.jobs@)
        &&& build_urls_unique(self.builds@)
        &&& run_urls_unique(self.runs@)
        &&& tag_names_unique(self.tags@)
        &&& builds_ref_jobs(self.builds@, self.jobs@)
        &&& runs_ref_builds(self.runs@, self.builds@)
        &&& artifacts_ref_runs(self.artifacts@, self.runs@)
        &&& issues_contained(self.runs@, self.tags@, self.artifacts@, self.issues@)
        &&& sims_ref_issues(self.similarities@, self.issues@)
        &&& no_singletons(self.similarities@)
    }

    /// Open a fresh, empty cache.
    pub fn new() -> (r: Database)
        ensures
            r.wf(),
            r.jobs@.len() == 0,
            r.builds@.len() == 0,
            r.runs@.len() == 0,
            r.artifacts@.len() == 0,
            r.issues@.len() == 0,
            r.tags@.len() == 0,
            r.similarities@.len() == 0,
            r.next_id == 1,
    {
        Database {
            jobs: Vec::new(),
            builds: Vec::new(),
            runs: Vec::new(),
            artifacts: Vec::new(),
            issues: Vec::new(),
            tags: Vec::new(),
            similarities: Vec::new(),
            next_id: 1,
        }
    }
}

/// Replacing a row with one of the same id leaves every lookup by id
/// intact, except that the replaced id now resolves to the new row.
pub proof fn lemma_row_lookup_update<T>(s: Seq<InDatabase<T>>, j: int, row: InDatabase<T>, id: i64)
    requires
        ids_unique(s),
        0 <= j < s.len(),
        row.id == s[j].id,
    ensures
        has_id(s.update(j, row), id) == has_id(s, id),
        has_id(s, id) && id != row.id ==> row_by_id(s.update(j, row), id) == row_by_id(s, id),
        has_id(s, row.id) ==> row_by_id(s.update(j, row), row.id) == row,
{
    let s2 = s.update(j, row);
    if has_id(s, id) {
        let w = choose|w: int| 0 <= w < s.len() && #[trigger] s[w].id == id;
        assert(s2[if w == j { j } else { w }].id == id);
        assert(has_id(s2, id));
        let w2 = choose|w2: int| 0 <= w2 < s2.len() && #[trigger] s2[w2].id == id;
        if id != row.id {
            assert(w2 != j);
            assert(s[w2].id == id);
            let w3 = choose|w3: int| 0 <= w3 < s.len() && #[trigger] s[w3].id == id;
            assert(w3 == w2) by {
                if w3 != w2 {
                    assert(s[w3].id != s[w2].id);
                }
            }
        } else {
            assert(w2 == j) by {
                if w2 != j {
                    assert(s[w2].id == id && s[j].id == id);
                    assert(s[w2].id != s[j].id);
                }
            }
        }
    }
    if has_id(s2, id) {
        let w = choose|w: int| 0 <= w < s2.len() && #[trigger] s2[w].id == id;
        assert(s[if w == j { j } else { w }].id == id);
        assert(has_id(s, id));
    }
    if has_id(s, row.id) {
        assert(s2[j].id == row.id);
        assert(has_id(s2, row.id));
        let wr = choose|wr: int| 0 <= wr < s2.len() && #[trigger] s2[wr].id == row.id;
        assert(wr == j) by {
            if wr != j {
                assert(s[wr].id == s[j].id);
                assert(s[wr].id != s[j].id);
            }
        }
    }
}

/// Appending a row with a fresh id leaves every existing lookup by id
/// intact and makes the fresh id resolve to the new row.
pub proof fn lemma_row_lookup_push<T>(s: Seq<InDatabase<T>>, row: InDatabase<T>, id: i64)
    requires
        ids_unique(s),
        forall|k: int| 0 <= k < s.len() ==> #[trigger] s[k].id != row.id,
    ensures
        has_id(s.push(row), id) == (has_id(s, id) || id == row.id),
        has_id(s, id) ==> row_by_id(s.push(row), id) == row_by_id(s, id),
        row_by_id(s.push(row), row.id) == row,
{
    let s2 = s.push(row);
    assert(s2[s.len() as int].id == row.id);
    assert(has_id(s2, row.id));
    let wr = choose|w: int| 0 <= w < s2.len() && #[trigger] s2[w].id == row.id;
    assert(wr == s.len() as int) by {
        if wr < s.len() {
            assert(s[wr].id != row.id);
        }
    }
    if has_id(s, id) {
        let w = choose|w: int| 0 <= w < s.len() && #[trigger] s[w].id == id;
        assert(s2[w].id == id);
        assert(has_id(s2, id));
        let w2 = choose|w2: int| 0 <= w2 < s2.len() && #[trigger] s2[w2].id == id;
        if w2 < s.len() {
            assert(s[w2].id == id);
            let w3 = choose|w3: int| 0 <= w3 < s.len() && #[trigger] s[w3].id == id;
            assert(w3 == w2 || s[w3].id != s[w2].id);
        } else {
            assert(id == row.id);
        }
    }
    if has_id(s2, id) && id != row.id {
        let w = choose|w: int| 0 <= w < s2.len() && #[trigger] s2[w].id == id;
        assert(w < s.len()) by {
            if w == s.len() {
                assert(s2[w].id == row.id);
            }
        }
        assert(s[w].id == id);
        assert(has_id(s, id));
    }
}

/// Field-wise equality of two jobs up to byte-string views.
pub open spec fn job_like(a: Job, b: Job) -> bool {
    a.name@ == b.name@ && a.url@ == b.url@ && a.last_build == b.last_build
}

/// Spec-level effect of upserting a job keyed by its name: the updated
/// table, the next id counter, and the resulting row. An existing row
/// keeps its id and url and only refreshes `last_build`.
pub open spec fn spec_upsert_job(jobs: Seq<InDatabase<Job>>, next_id: i64, job: Job) -> (
    Seq<InDatabase<Job>>,
    i64,
    InDatabase<Job>,
) {
    if has_job_named(jobs, job.name@) {
        let j = choose|j: int| 0 <= j < jobs.len() && #[trigger] jobs[j].item.name@ == job.name@;
        let row = InDatabase {
            id: jobs[j].id,
            item: Job {
                name: jobs[j].item.name,
                url: jobs[j].item.url,
                last_build: job.last_build,
            },
        };
        (jobs.update(j, row), next_id, row)
    } else {
        let row = InDatabase { id: next_id, item: job };
        (jobs.push(row), (next_id + 1) as i64, row)
    }
}

impl Database {
    /// Upsert a job keyed by its unique name: insert a fresh row, or
    /// refresh `last_build` on the existing row, preserving its identity.
    #[verifier::rlimit(60)]
    #[verifier::spinoff_prover]
    pub fn upsert_job(&mut self, job: Job) -> (r: InDatabase<Job>)
        requires
            old(self).wf(),
            old(self).next_id < i64::MAX,
        ensures
            final(self).wf(),
            final(self).jobs@ == spec_upsert_job(old(self).jobs@, old(self).next_id, job).0,
            final(self).next_id == spec_upsert_job(old(self).jobs@, old(self).next_id, job).1,
            r.id == spec_upsert_job(old(self).jobs@, old(self).next_id, job).2.id,
            job_like(r.item, spec_upsert_job(old(self).jobs@, old(self).next_id, job).2.item),
            r.item.name@ == job.name@,
            r.item.last_build == job.last_build,
            has_id(final(self).jobs@, r.id),
            final(self).builds == old(self).builds,
            final(self).runs == old(self).runs,
            final(self).artifacts == old(self).artifacts,
            final(self).issues == old(self).issues,
            final(self).tags == old(self).tags,
            final(self).similarities == old(self).similarities,
    {
        let ghost spec_result = spec_upsert_job(old(self).jobs@, old(self).next_id, job);
        let mut found: Option<usize> = None;
        let mut j: usize = 0;
        while j < self.jobs.len()
            invariant
                *self == *old(self),
                j <= self.jobs@.len(),
                match found {
                    Some(k) => k < j && self.jobs@[k as int].item.name@ == job.name@,
                    None => forall|k: int|
                        0 <= k < j ==> #[trigger] self.jobs@[k].item.name@ != job.name@,
                },
            decreases self.jobs@.len() - j,
        {
            if found.is_none() && bytes_eq(self.jobs[j].item.name.as_slice(), job.name.as_slice()) {
                found = Some(j);
            }
            j += 1;
        }
        match found {
            Some(jx) => {
                proof {
                    assert(has_job_named(self.jobs@, job.name@));
                    let j2 = choose|j2: int|
                        0 <= j2 < old(self).jobs@.len() && #[trigger] old(
                            self,
                        ).jobs@[j2].item.name@ == job.name@;
                    assert(j2 == jx as int);
                }
                let row = self.jobs.remove(jx);
                let new_row = InDatabase {
                    id: row.id,
                    item: Job { name: row.item.name, url: row.item.url, last_build: job.last_build },
                };
                let ret = InDatabase {
                    id: new_row.id,
                    item: Job {
                        name: clone_bytes(&new_row.item.name),
                        url: clone_bytes(&new_row.item.url),
                        last_build: job.last_build,
                    },
                };
                self.jobs.insert(jx, new_row);
                proof {
                    let js = self.jobs@;
                    let ojs = old(self).jobs@;
                    assert(js =~= ojs.update(jx as int, new_row));
                    assert(js == spec_result.0);
                    assert forall|i: int| 0 <= i < js.len() implies #[trigger] js[i].id == ojs[i].id
                        && js[i].item.name@ == ojs[i].item.name@ by {}
                    assert(js[jx as int].id == ret.id);
                    assert forall|i: int|
                        0 <= i < self.builds@.len() implies has_id(
                        js,
                        #[trigger] self.builds@[i].item.job_id,
                    ) by {
                        assert(has_id(ojs, self.builds@[i].item.job_id));
                        let w = choose|w: int|
                            0 <= w < ojs.len() && #[trigger] ojs[w].id
                                == self.builds@[i].item.job_id;
                        assert(js[w].id == self.builds@[i].item.job_id);
                    }
                }
                ret
            },
            None => {
                proof {
                    assert(!has_job_named(self.jobs@, job.name@));
                }
                let new_row = InDatabase { id: self.next_id, item: job };
                let ret = InDatabase {
                    id: new_row.id,
                    item: Job {
                        name: clone_bytes(&new_row.item.name),
                        url: clone_bytes(&new_row.item.url),
                        last_build: new_row.item.last_build,
                    },
                };
                self.jobs.push(new_row);
                self.next_id = self.next_id + 1;
                proof {
                    let js = self.jobs@;
                    let ojs = old(self).jobs@;
                    assert(js == spec_result.0);
                    assert(js[js.len() - 1].id == ret.id);
                    assert forall|i: int|
                        0 <= i < self.builds@.len() implies has_id(
                        js,
                        #[trigger] self.builds@[i].item.job_id,
                    ) by {
                        assert(has_id(ojs, self.builds@[i].item.job_id));
                        let w = choose|w: int|
                            0 <= w < ojs.len() && #[trigger] ojs[w].id
                                == self.builds@[i].item.job_id;
                        assert(js[w].id == self.builds@[i].item.job_id);
                    }
                }
                ret
            },
        }
    }

    /// Look a job up by name. Absence is an explicit `None`, never an error.
    pub fn get_job(&self, name: &[u8]) -> (r: Option<InDatabase<Job>>)
        ensures
            match r {
                Some(row) => exists|i: int|
                    0 <= i < self.jobs@.len() && #[trigger] self.jobs@[i].id == row.id
                        && self.jobs@[i].item.name@ == name@ && job_like(
                        row.item,
                        self.jobs@[i].item,
                    ),
                None => !has_job_named(self.jobs@, name@),
            },
    {
        let mut j: usize = 0;
        while j < self.jobs.len()
            invariant
                j <= self.jobs@.len(),
                forall|k: int| 0 <= k < j ==> #[trigger] self.jobs@[k].item.name@ != name@,
            decreases self.jobs@.len() - j,
        {
            if bytes_eq(self.jobs[j].item.name.as_slice(), name) {
                let row = &self.jobs[j];
                return Some(
                    InDatabase {
                        id: row.id,
                        item: Job {
                            name: clone_bytes(&row.item.name),
                            url: clone_bytes(&row.item.url),
                            last_build: row.item.last_build,
                        },
                    },
                );
            }
            j += 1;
        }
        None
    }
}

/// Field-wise equality of two builds up to byte-string views.
pub open spec fn build_like(a: JobBuild, b: JobBuild) -> bool {
    a.url@ == b.url@ && a.status == b.status && a.number == b.number && a.timestamp == b.timestamp
        && a.job_id == b.job_id
}

/// Field-wise equality of two runs up to byte-string views.
pub open spec fn run_like(a: Run, b: Run) -> bool {
    &&& a.url@ == b.url@
    &&& a.status == b.status
    &&& a.display_name@ == b.display_name@
    &&& a.log is Some <==> b.log is Some
    &&& a.log is Some ==> a.log->0@ == b.log->0@
    &&& a.tag_schema == b.tag_schema
    &&& a.build_id == b.build_id
}

/// Field-wise equality of two tags up to byte-string views.
pub open spec fn tag_like(a: TagInfo, b: TagInfo) -> bool {
    a.name@ == b.name@ && a.desc@ == b.desc@ && a.field == b.field && a.severity == b.severity
}

/// No finding references the run with id `run_id`.
pub open spec fn run_unreferenced(issues: Seq<InDatabase<IssueInfo>>, run_id: i64) -> bool {
    forall|k: int| 0 <= k < issues.len() ==> #[trigger] issues[k].item.run_id != run_id
}

/// No finding references the tag with id `tag_id`.
pub open spec fn tag_unreferenced(issues: Seq<InDatabase<IssueInfo>>, tag_id: i64) -> bool {
    forall|k: int| 0 <= k < issues.len() ==> #[trigger] issues[k].item.tag_id != tag_id
}

/// An upsert of a run by url may only replace a run that no finding
/// references: snippet ranges point into the run's fields, so a run with
/// findings must be purged before its text may change.
pub open spec fn run_update_safe(
    runs: Seq<InDatabase<Run>>,
    issues: Seq<InDatabase<IssueInfo>>,
    url: Seq<u8>,
) -> bool {
    forall|i: int|
        0 <= i < runs.len() && #[trigger] runs[i].item.url@ == url ==> run_unreferenced(
            issues,
            runs[i].id,
        )
}

/// An upsert of a tag by name may change the tag's target field only if no
/// finding references the tag: snippet containment is judged against the
/// field the tag selects.
pub open spec fn tag_update_safe(
    tags: Seq<InDatabase<TagInfo>>,
    issues: Seq<InDatabase<IssueInfo>>,
    tag: TagInfo,
) -> bool {
    forall|i: int|
        0 <= i < tags.len() && #[trigger] tags[i].item.name@ == tag.name@ ==> (tags[i].item.field
            == tag.field || tag_unreferenced(issues, tags[i].id))
}

/// Spec-level effect of upserting a build keyed by its url: an existing
/// row keeps its id and url and refreshes status, number, timestamp and
/// owner.
pub open spec fn spec_upsert_build(
    builds: Seq<InDatabase<JobBuild>>,
    next_id: i64,
    build: JobBuild,
) -> (Seq<InDatabase<JobBuild>>, i64, InDatabase<JobBuild>) {
    if has_build_url(builds, build.url@) {
        let j = choose|j: int| 0 <= j < builds.len() && #[trigger] builds[j].item.url@
            == build.url@;
        let row = InDatabase {
            id: builds[j].id,
            item: JobBuild {
                url: builds[j].item.url,
                status: build.status,
                number: build.number,
                timestamp: build.timestamp,
                job_id: build.job_id,
            },
        };
        (builds.update(j, row), next_id, row)
    } else {
        let row = InDatabase { id: next_id, item: build };
        (builds.push(row), (next_id + 1) as i64, row)
    }
}

/// Spec-level effect of upserting a run keyed by its url: an existing row
/// keeps its id and url and refreshes every other field.
pub open spec fn spec_upsert_run(runs: Seq<InDatabase<Run>>, next_id: i64, run: Run) -> (
    Seq<InDatabase<Run>>,
    i64,
    InDatabase<Run>,
) {
    if has_run_url(runs, run.url@) {
        let j = choose|j: int| 0 <= j < runs.len() && #[trigger] runs[j].item.url@ == run.url@;
        let row = InDatabase {
            id: runs[j].id,
            item: Run {
                url: runs[j].item.url,
                status: run.status,
                display_name: run.display_name,
                log: run.log,
                tag_schema: run.tag_schema,
                build_id: run.build_id,
            },
        };
        (runs.update(j, row), next_id, row)
    } else {
        let row = InDatabase { id: next_id, item: run };
        (runs.push(row), (next_id + 1) as i64, row)
    }
}

/// Spec-level effect of upserting a tag keyed by its name: an existing row
/// keeps its id and name and refreshes description, field and severity.
pub open spec fn spec_upsert_tag(tags: Seq<InDatabase<TagInfo>>, next_id: i64, tag: TagInfo) -> (
    Seq<InDatabase<TagInfo>>,
    i64,
    InDatabase<TagInfo>,
) {
    if has_tag_named(tags, tag.name@) {
        let j = choose|j: int| 0 <= j < tags.len() && #[trigger] tags[j].item.name@ == tag.name@;
        let row = InDatabase {
            id: tags[j].id,
            item: TagInfo {
                name: tags[j].item.name,
                desc: tag.desc,
                field: tag.field,
                severity: tag.severity,
            },
        };
        (tags.update(j, row), next_id, row)
    } else {
        let row = InDatabase { id: next_id, item: tag };
        (tags.push(row), (next_id + 1) as i64, row)
    }
}

impl Database {
    /// Upsert a build keyed by its globally unique url: insert a fresh
    /// row, or refresh status, number, timestamp and owner on the existing
    /// row, preserving its identity.
    #[verifier::rlimit(60)]
    #[verifier::spinoff_prover]
    pub fn upsert_build(&mut self, build: JobBuild) -> (r: InDatabase<JobBuild>)
        requires
            old(self).wf(),
            old(self).next_id < i64::MAX,
            has_id(old(self).jobs@, build.job_id),
        ensures
            final(self).wf(),
            final(self).builds@ == spec_upsert_build(
                old(self).builds@,
                old(self).next_id,
                build,
            ).0,
            final(self).next_id == spec_upsert_build(old(self).builds@, old(self).next_id, build).1,
            r.id == spec_upsert_build(old(self).builds@, old(self).next_id, build).2.id,
            build_like(r.item, spec_upsert_build(old(self).builds@, old(self).next_id, build).2.item),
            r.item.url@ == build.url@,
            r.item.status == build.status,
            r.item.number == build.number,
            r.item.timestamp == build.timestamp,
            r.item.job_id == build.job_id,
            has_id(final(self).builds@, r.id),
            final(self).jobs == old(self).jobs,
            final(self).runs == old(self).runs,
            final(self).artifacts == old(self).artifacts,
            final(self).issues == old(self).issues,
            final(self).tags == old(self).tags,
            final(self).similarities == old(self).similarities,
    {
        let mut found: Option<usize> = None;
        let mut j: usize = 0;
        while j < self.builds.len()
            invariant
                *self == *old(self),
                j <= self.builds@.len(),
                match found {
                    Some(k) => k < j && self.builds@[k as int].item.url@ == build.url@,
                    None => forall|k: int|
                        0 <= k < j ==> #[trigger] self.builds@[k].item.url@ != build.url@,
                },
            decreases self.builds@.len() - j,
        {
            if found.is_none() && bytes_eq(self.builds[j].item.url.as_slice(), build.url.as_slice()) {
                found = Some(j);
            }
            j += 1;
        }
        match found {
            Some(jx) => {
                proof {
                    assert(has_build_url(self.builds@, build.url@));
                    let j2 = choose|j2: int|
                        0 <= j2 < old(self).builds@.len() && #[trigger] old(
                            self,
                        ).builds@[j2].item.url@ == build.url@;
                    assert(j2 == jx as int);
                }
                let row = self.builds.remove(jx);
                let new_row = InDatabase {
                    id: row.id,
                    item: JobBuild {
                        url: row.item.url,
                        status: build.status,
                        number: build.number,
                        timestamp: build.timestamp,
                        job_id: build.job_id,
                    },
                };
                let ret = InDatabase {
                    id: new_row.id,
                    item: JobBuild {
                        url: clone_bytes(&new_row.item.url),
                        status: build.status,
                        number: build.number,
                        timestamp: build.timestamp,
                        job_id: build.job_id,
                    },
                };
                self.builds.insert(jx, new_row);
                proof {
                    let bs = self.builds@;
                    let obs = old(self).builds@;
                    assert(bs =~= obs.update(jx as int, new_row));
                    assert forall|i: int| 0 <= i < bs.len() implies #[trigger] bs[i].id == obs[i].id
                        && bs[i].item.url@ == obs[i].item.url@ by {}
                    assert(bs[jx as int].id == ret.id);
                    assert forall|i: int| 0 <= i < bs.len() implies has_id(
                        self.jobs@,
                        #[trigger] bs[i].item.job_id,
                    ) by {}
                    assert forall|i: int|
                        0 <= i < self.runs@.len() implies has_id(
                        bs,
                        #[trigger] self.runs@[i].item.build_id,
                    ) by {
                        lemma_row_lookup_update(
                            obs,
                            jx as int,
                            new_row,
                            self.runs@[i].item.build_id,
                        );
                    }
                }
                ret
            },
            None => {
                proof {
                    assert(!has_build_url(self.builds@, build.url@));
                }
                let new_row = InDatabase { id: self.next_id, item: build };
                let ret = InDatabase {
                    id: new_row.id,
                    item: JobBuild {
                        url: clone_bytes(&new_row.item.url),
                        status: new_row.item.status,
                        number: new_row.item.number,
                        timestamp: new_row.item.timestamp,
                        job_id: new_row.item.job_id,
                    },
                };
                self.builds.push(new_row);
                self.next_id = self.next_id + 1;
                proof {
                    let bs = self.builds@;
                    let obs = old(self).builds@;
                    assert(bs[bs.len() - 1].id == ret.id);
                    assert forall|i: int| 0 <= i < bs.len() implies has_id(
                        self.jobs@,
                        #[trigger] bs[i].item.job_id,
                    ) by {}
                    assert forall|i: int|
                        0 <= i < self.runs@.len() implies has_id(
                        bs,
                        #[trigger] self.runs@[i].item.build_id,
                    ) by {
                        lemma_row_lookup_push(obs, new_row, self.runs@[i].item.build_id);
                    }
                }
                ret
            },
        }
    }

    /// Upsert a run keyed by its globally unique url: insert a fresh row,
    /// or refresh every field but url on the existing row, preserving its
    /// identity. A run that findings reference may not be replaced.
    #[verifier::rlimit(60)]
    #[verifier::spinoff_prover]
    pub fn upsert_run(&mut self, run: Run) -> (r: i64)
        requires
            old(self).wf(),
            old(self).next_id < i64::MAX,
            has_id(old(self).builds@, run.build_id),
            run_update_safe(old(self).runs@, old(self).issues@, run.url@),
        ensures
            final(self).wf(),
            final(self).runs@ == spec_upsert_run(old(self).runs@, old(self).next_id, run).0,
            final(self).next_id == spec_upsert_run(old(self).runs@, old(self).next_id, run).1,
            r == spec_upsert_run(old(self).runs@, old(self).next_id, run).2.id,
            has_id(final(self).runs@, r),
            run_like(row_by_id(final(self).runs@, r).item, spec_upsert_run(old(self).runs@, old(self).next_id, run).2.item),
            final(self).jobs == old(self).jobs,
            final(self).builds == old(self).builds,
            final(self).artifacts == old(self).artifacts,
            final(self).issues == old(self).issues,
            final(self).tags == old(self).tags,
            final(self).similarities == old(self).similarities,
    {
        let mut found: Option<usize> = None;
        let mut j: usize = 0;
        while j < self.runs.len()
            invariant
                *self == *old(self),
                j <= self.runs@.len(),
                match found {
                    Some(k) => k < j && self.runs@[k as int].item.url@ == run.url@,
                    None => forall|k: int|
                        0 <= k < j ==> #[trigger] self.runs@[k].item.url@ != run.url@,
                },
            decreases self.runs@.len() - j,
        {
            if found.is_none() && bytes_eq(self.runs[j].item.url.as_slice(), run.url.as_slice()) {
                found = Some(j);
            }
            j += 1;
        }
        match found {
            Some(jx) => {
                proof {
                    assert(has_run_url(self.runs@, run.url@));
                    let j2 = choose|j2: int|
                        0 <= j2 < old(self).runs@.len() && #[trigger] old(self).runs@[j2].item.url@
                            == run.url@;
                    assert(j2 == jx as int);
                }
                let row = self.runs.remove(jx);
                let new_row = InDatabase {
                    id: row.id,
                    item: Run {
                        url: row.item.url,
                        status: run.status,
                        display_name: run.display_name,
                        log: run.log,
                        tag_schema: run.tag_schema,
                        build_id: run.build_id,
                    },
                };
                let ret = new_row.id;
                self.runs.insert(jx, new_row);
                proof {
                    let rs = self.runs@;
                    let ors = old(self).runs@;
                    assert(rs =~= ors.update(jx as int, new_row));
                    assert forall|i: int| 0 <= i < rs.len() implies #[trigger] rs[i].id == ors[i].id
                        && rs[i].item.url@ == ors[i].item.url@ by {}
                    lemma_row_lookup_update(ors, jx as int, new_row, new_row.id);
                    assert forall|i: int| 0 <= i < rs.len() implies has_id(
                        self.builds@,
                        #[trigger] rs[i].item.build_id,
                    ) by {}
                    assert forall|i: int|
                        0 <= i < self.artifacts@.len() implies has_id(
                        rs,
                        #[trigger] self.artifacts@[i].item.run_id,
                    ) by {
                        lemma_row_lookup_update(
                            ors,
                            jx as int,
                            new_row,
                            self.artifacts@[i].item.run_id,
                        );
                    }
                    assert forall|i: int|
                        0 <= i < self.issues@.len() implies issue_contained(
                        rs,
                        self.tags@,
                        self.artifacts@,
                        #[trigger] self.issues@[i].item,
                    ) by {
                        let iss = self.issues@[i].item;
                        assert(issue_contained(ors, self.tags@, self.artifacts@, iss));
                        assert(iss.run_id != new_row.id);
                        lemma_row_lookup_update(ors, jx as int, new_row, iss.run_id);
                    }
                }
                ret
            },
            None => {
                proof {
                    assert(!has_run_url(self.runs@, run.url@));
                }
                let new_row = InDatabase { id: self.next_id, item: run };
                let ret = new_row.id;
                self.runs.push(new_row);
                self.next_id = self.next_id + 1;
                proof {
                    let rs = self.runs@;
                    let ors = old(self).runs@;
                    lemma_row_lookup_push(ors, new_row, new_row.id);
                    assert forall|i: int| 0 <= i < rs.len() implies has_id(
                        self.builds@,
                        #[trigger] rs[i].item.build_id,
                    ) by {}
                    assert forall|i: int|
                        0 <= i < self.artifacts@.len() implies has_id(
                        rs,
                        #[trigger] self.artifacts@[i].item.run_id,
                    ) by {
                        lemma_row_lookup_push(ors, new_row, self.artifacts@[i].item.run_id);
                    }
                    assert forall|i: int|
                        0 <= i < self.issues@.len() implies issue_contained(
                        rs,
                        self.tags@,
                        self.artifacts@,
                        #[trigger] self.issues@[i].item,
                    ) by {
                        let iss = self.issues@[i].item;
                        assert(issue_contained(ors, self.tags@, self.artifacts@, iss));
                        lemma_row_lookup_push(ors, new_row, iss.run_id);
                    }
                }
                ret
            },
        }
    }

    /// Upsert a tag keyed by its unique name: insert a fresh row, or
    /// refresh description, field and severity on the existing row,
    /// preserving its identity. The target field of a tag that findings
    /// reference may not change.
    #[verifier::rlimit(60)]
    #[verifier::spinoff_prover]
    pub fn upsert_tag(&mut self, tag: TagInfo) -> (r: i64)
        requires
            old(self).wf(),
            old(self).next_id < i64::MAX,
            tag_update_safe(old(self).tags@, old(self).issues@, tag),
        ensures
            final(self).wf(),
            final(self).tags@ == spec_upsert_tag(old(self).tags@, old(self).next_id, tag).0,
            final(self).next_id == spec_upsert_tag(old(self).tags@, old(self).next_id, tag).1,
            r == spec_upsert_tag(old(self).tags@, old(self).next_id, tag).2.id,
            has_id(final(self).tags@, r),
            tag_like(row_by_id(final(self).tags@, r).item, spec_upsert_tag(old(self).tags@, old(self).next_id, tag).2.item),
            final(self).jobs == old(self).jobs,
            final(self).builds == old(self).builds,
            final(self).runs == old(self).runs,
            final(self).artifacts == old(self).artifacts,
            final(self).issues == old(self).issues,
            final(self).similarities == old(self).similarities,
    {
        let mut found: Option<usize> = None;
        let mut j: usize = 0;
        while j < self.tags.len()
            invariant
                *self == *old(self),
                j <= self.tags@.len(),
                match found {
                    Some(k) => k < j && self.tags@[k as int].item.name@ == tag.name@,
                    None => forall|k: int|
                        0 <= k < j ==> #[trigger] self.tags@[k].item.name@ != tag.name@,
                },
            decreases self.tags@.len() - j,
        {
            if found.is_none() && bytes_eq(self.tags[j].item.name.as_slice(), tag.name.as_slice()) {
                found = Some(j);
            }
            j += 1;
        }
        match found {
            Some(jx) => {
                proof {
                    assert(has_tag_named(self.tags@, tag.name@));
                    let j2 = choose|j2: int|
                        0 <= j2 < old(self).tags@.len() && #[trigger] old(self).tags@[j2].item.name@
                            == tag.name@;
                    assert(j2 == jx as int);
                }
                let row = self.tags.remove(jx);
                let new_row = InDatabase {
                    id: row.id,
                    item: TagInfo {
                        name: row.item.name,
                        desc: tag.desc,
                        field: tag.field,
                        severity: tag.severity,
                    },
                };
                let ghost old_field = old(self).tags@[jx as int].item.field;
                let ret = new_row.id;
                self.tags.insert(jx, new_row);
                proof {
                    let ts = self.tags@;
                    let ots = old(self).tags@;
                    assert(ts =~= ots.update(jx as int, new_row));
                    assert forall|i: int| 0 <= i < ts.len() implies #[trigger] ts[i].id == ots[i].id
                        && ts[i].item.name@ == ots[i].item.name@ by {}
                    lemma_row_lookup_update(ots, jx as int, new_row, new_row.id);
                    assert forall|i: int|
                        0 <= i < self.issues@.len() implies issue_contained(
                        self.runs@,
                        ts,
                        self.artifacts@,
                        #[trigger] self.issues@[i].item,
                    ) by {
                        let iss = self.issues@[i].item;
                        assert(issue_contained(self.runs@, ots, self.artifacts@, iss));
                        lemma_row_lookup_update(ots, jx as int, new_row, iss.tag_id);
                        if iss.tag_id == new_row.id {
                            assert(old_field == tag.field || tag_unreferenced(
                                old(self).issues@,
                                new_row.id,
                            ));
                            assert(row_by_id(ots, iss.tag_id).item.field == old_field) by {
                                let w = choose|w: int|
                                    0 <= w < ots.len() && #[trigger] ots[w].id == iss.tag_id;
                                assert(w == jx as int) by {
                                    if w != jx as int {
                                        assert(ots[w].id != ots[jx as int].id);
                                    }
                                }
                            }
                        }
                    }
                }
                ret
            },
            None => {
                proof {
                    assert(!has_tag_named(self.tags@, tag.name@));
                }
                let new_row = InDatabase { id: self.next_id, item: tag };
                let ret = new_row.id;
                self.tags.push(new_row);
                self.next_id = self.next_id + 1;
                proof {
                    let ts = self.tags@;
                    let ots = old(self).tags@;
                    lemma_row_lookup_push(ots, new_row, new_row.id);
                    assert forall|i: int|
                        0 <= i < self.issues@.len() implies issue_contained(
                        self.runs@,
                        ts,
                        self.artifacts@,
                        #[trigger] self.issues@[i].item,
                    ) by {
                        let iss = self.issues@[i].item;
                        assert(issue_contained(self.runs@, ots, self.artifacts@, iss));
                        lemma_row_lookup_push(ots, new_row, iss.tag_id);
                    }
                }
                ret
            },
        }
    }
}

impl Database {
    /// Insert a downloaded artifact under its run. Contents are immutable
    /// after this.
    pub fn insert_artifact(&mut self, artifact: Artifact) -> (r: i64)
        requires
            old(self).wf(),
            old(self).next_id < i64::MAX,
            has_id(old(self).runs@, artifact.run_id),
        ensures
            final(self).wf(),
            r == old(self).next_id,
            final(self).artifacts@ == old(self).artifacts@.push(
                InDatabase { id: old(self).next_id, item: artifact },
            ),
            final(self).next_id == old(self).next_id + 1,
            final(self).jobs == old(self).jobs,
            final(self).builds == old(self).builds,
            final(self).runs == old(self).runs,
            final(self).issues == old(self).issues,
            final(self).tags == old(self).tags,
            final(self).similarities == old(self).similarities,
    {
        let new_row = InDatabase { id: self.next_id, item: artifact };
        let ret = new_row.id;
        self.artifacts.push(new_row);
        self.next_id = self.next_id + 1;
        proof {
            let arts = self.artifacts@;
            let oarts = old(self).artifacts@;
            assert forall|i: int|
                0 <= i < self.issues@.len() implies issue_contained(
                self.runs@,
                self.tags@,
                arts,
                #[trigger] self.issues@[i].item,
            ) by {
                let iss = self.issues@[i].item;
                assert(issue_contained(self.runs@, self.tags@, oarts, iss));
                if iss.artifact_id is Some {
                    lemma_row_lookup_push(oarts, new_row, iss.artifact_id->0);
                }
            }
        }
        ret
    }

    /// Insert one finding. The snippet range must lie within the field the
    /// finding's tag selects; that containment is the caller's proof
    /// obligation and becomes part of the cache invariant.
    pub fn insert_issue(&mut self, issue: IssueInfo) -> (r: InDatabase<IssueInfo>)
        requires
            old(self).wf(),
            old(self).next_id < i64::MAX,
            issue_contained(old(self).runs@, old(self).tags@, old(self).artifacts@, issue),
        ensures
            final(self).wf(),
            r.id == old(self).next_id,
            r.item == issue,
            final(self).issues@ == old(self).issues@.push(
                InDatabase { id: old(self).next_id, item: issue },
            ),
            final(self).next_id == old(self).next_id + 1,
            final(self).jobs == old(self).jobs,
            final(self).builds == old(self).builds,
            final(self).runs == old(self).runs,
            final(self).artifacts == old(self).artifacts,
            final(self).tags == old(self).tags,
            final(self).similarities == old(self).similarities,
    {
        let new_row = InDatabase { id: self.next_id, item: issue };
        let ret = InDatabase { id: new_row.id, item: issue };
        self.issues.push(new_row);
        self.next_id = self.next_id + 1;
        proof {
            let is2 = self.issues@;
            let ois = old(self).issues@;
            assert forall|i: int|
                0 <= i < self.similarities@.len() implies has_id(
                is2,
                #[trigger] self.similarities@[i].item.issue_id,
            ) by {
                lemma_row_lookup_push(ois, new_row, self.similarities@[i].item.issue_id);
            }
        }
        ret
    }

    /// Insert one similarity group: at least two distinct findings that
    /// all share the group's hash. Storing whole groups at once is what
    /// keeps singleton similarities out of the cache.
    pub fn insert_similarity_group(&mut self, hash: u64, issue_ids: &Vec<i64>)
        requires
            old(self).wf(),
            old(self).next_id + issue_ids@.len() <= i64::MAX,
            issue_ids@.len() >= 2,
            forall|i: int, j: int|
                0 <= i < j < issue_ids@.len() ==> #[trigger] issue_ids@[i] != #[trigger] issue_ids@[j],
            forall|i: int|
                0 <= i < issue_ids@.len() ==> has_id(old(self).issues@, #[trigger] issue_ids@[i]),
        ensures
            final(self).wf(),
            final(self).similarities@.len() == old(self).similarities@.len() + issue_ids@.len(),
            forall|i: int|
                0 <= i < old(self).similarities@.len() ==> final(self).similarities@[i] == old(
                    self,
                ).similarities@[i],
            forall|i: int|
                0 <= i < issue_ids@.len() ==> #[trigger] final(self).similarities@[old(
                    self,
                ).similarities@.len() + i].item == (SimilarityInfo {
                    similarity_hash: hash,
                    issue_id: issue_ids@[i],
                }),
            final(self).next_id == old(self).next_id + issue_ids@.len(),
            final(self).jobs == old(self).jobs,
            final(self).builds == old(self).builds,
            final(self).runs == old(self).runs,
            final(self).artifacts == old(self).artifacts,
            final(self).issues == old(self).issues,
            final(self).tags == old(self).tags,
    {
        let ghost old_len = old(self).similarities@.len() as int;
        let ghost nid0 = old(self).next_id;
        let mut k: usize = 0;
        while k < issue_ids.len()
            invariant
                old(self).wf(),
                k <= issue_ids@.len(),
                nid0 == old(self).next_id,
                old_len == old(self).similarities@.len(),
                nid0 + issue_ids@.len() <= i64::MAX,
                forall|i: int|
                    0 <= i < issue_ids@.len() ==> has_id(old(self).issues@, #[trigger] issue_ids@[i]),
                self.next_id == nid0 + k,
                self.similarities@.len() == old_len + k,
                forall|i: int|
                    0 <= i < old_len ==> #[trigger] self.similarities@[i] == old(
                        self,
                    ).similarities@[i],
                forall|i: int|
                    0 <= i < k ==> #[trigger] self.similarities@[old_len + i] == (InDatabase {
                        id: (nid0 + i) as i64,
                        item: SimilarityInfo { similarity_hash: hash, issue_id: issue_ids@[i] },
                    }),
                self.jobs == old(self).jobs,
                self.builds == old(self).builds,
                self.runs == old(self).runs,
                self.artifacts == old(self).artifacts,
                self.issues == old(self).issues,
                self.tags == old(self).tags,
            decreases issue_ids@.len() - k,
        {
            let ghost pre_sims = self.similarities@;
            let row = InDatabase {
                id: self.next_id,
                item: SimilarityInfo { similarity_hash: hash, issue_id: issue_ids[k] },
            };
            self.similarities.push(row);
            self.next_id = self.next_id + 1;
            proof {
                let s2 = self.similarities@;
                assert forall|i: int| 0 <= i < pre_sims.len() implies #[trigger] s2[i]
                    == pre_sims[i] by {
                    assert(pre_sims.push(row)[i] == pre_sims[i]);
                }
                assert(pre_sims.push(row)[pre_sims.len() as int] == row);
                assert(s2[old_len + k as int] == row);
            }
            k += 1;
        }
        proof {
            let sims = self.similarities@;
            let osims = old(self).similarities@;
            let n = issue_ids@.len() as int;
            assert forall|i: int| old_len <= i < sims.len() implies #[trigger] sims[i]
                == (InDatabase {
                id: (nid0 + (i - old_len)) as i64,
                item: SimilarityInfo { similarity_hash: hash, issue_id: issue_ids@[i - old_len] },
            }) by {
                let d = i - old_len;
                assert(sims[old_len + d] == (InDatabase {
                    id: (nid0 + d) as i64,
                    item: SimilarityInfo { similarity_hash: hash, issue_id: issue_ids@[d] },
                }));
            }
            assert forall|i: int, j: int| 0 <= i < j < sims.len() implies #[trigger] sims[i].id
                != #[trigger] sims[j].id by {
                if i < old_len && j >= old_len {
                    assert(sims[i].id < old(self).next_id);
                    assert(sims[j].id >= old(self).next_id);
                }
            }
            assert forall|i: int| 0 <= i < sims.len() implies has_id(
                self.issues@,
                #[trigger] sims[i].item.issue_id,
            ) by {
                if i < old_len {
                    assert(sims[i] == osims[i]);
                    assert(has_id(old(self).issues@, osims[i].item.issue_id));
                }
            }
            assert forall|i: int| 0 <= i < sims.len() implies #[trigger] sim_has_partner(
                sims,
                i,
            ) by {
                if i < old_len {
                    assert(sim_has_partner(osims, i));
                    let j = choose|j: int|
                        0 <= j < osims.len() && #[trigger] osims[j].item.similarity_hash
                            == osims[i].item.similarity_hash && osims[j].item.issue_id
                            != osims[i].item.issue_id;
                    assert(sims[j].item.similarity_hash == sims[i].item.similarity_hash
                        && sims[j].item.issue_id != sims[i].item.issue_id);
                } else {
                    let j = if i == old_len {
                        old_len + 1
                    } else {
                        old_len
                    };
                    assert(issue_ids@[i - old_len] != issue_ids@[j - old_len]);
                    assert(sims[j].item.similarity_hash == sims[i].item.similarity_hash
                        && sims[j].item.issue_id != sims[i].item.issue_id);
                }
            }
        }
    }

    /// Set every run's parsed-with fingerprint to `new_schema`, leaving
    /// every other field of every run untouched.
    pub fn update_tag_schema_for_runs(&mut self, new_schema: Option<u64>)
        requires
            old(self).wf(),
        ensures
            final(self).wf(),
            final(self).runs@.len() == old(self).runs@.len(),
            forall|i: int|
                0 <= i < old(self).runs@.len() ==> #[trigger] final(self).runs@[i] == (InDatabase {
                    id: old(self).runs@[i].id,
                    item: Run { tag_schema: new_schema, ..old(self).runs@[i].item },
                }),
            final(self).jobs == old(self).jobs,
            final(self).builds == old(self).builds,
            final(self).artifacts == old(self).artifacts,
            final(self).issues == old(self).issues,
            final(self).tags == old(self).tags,
            final(self).similarities == old(self).similarities,
            final(self).next_id == old(self).next_id,
    {
        let mut k: usize = 0;
        while k < self.runs.len()
            invariant
                old(self).wf(),
                k <= self.runs@.len(),
                self.runs@.len() == old(self).runs@.len(),
                forall|i: int|
                    0 <= i < k ==> #[trigger] self.runs@[i] == (InDatabase {
                        id: old(self).runs@[i].id,
                        item: Run { tag_schema: new_schema, ..old(self).runs@[i].item },
                    }),
                forall|i: int|
                    k <= i < self.runs@.len() ==> #[trigger] self.runs@[i] == old(self).runs@[i],
                self.jobs == old(self).jobs,
                self.builds == old(self).builds,
                self.artifacts == old(self).artifacts,
                self.issues == old(self).issues,
                self.tags == old(self).tags,
                self.similarities == old(self).similarities,
                self.next_id == old(self).next_id,
                ids_unique(self.runs@),
                ids_below(self.runs@, self.next_id),
                run_urls_unique(self.runs@),
                runs_ref_builds(self.runs@, self.builds@),
                artifacts_ref_runs(self.artifacts@, self.runs@),
                issues_contained(self.runs@, self.tags@, self.artifacts@, self.issues@),
            decreases self.runs@.len() - k,
        {
            let ghost pre_runs = self.runs@;
            let row = self.runs.remove(k);
            let new_row = InDatabase {
                id: row.id,
                item: Run {
                    url: row.item.url,
                    status: row.item.status,
                    display_name: row.item.display_name,
                    log: row.item.log,
                    tag_schema: new_schema,
                    build_id: row.item.build_id,
                },
            };
            self.runs.insert(k, new_row);
            proof {
                assert(self.runs@ =~= pre_runs.update(k as int, new_row));
                assert forall|i: int| 0 <= i < self.runs@.len() implies #[trigger] self.runs@[i].id
                    == pre_runs[i].id && self.runs@[i].item.url@ == pre_runs[i].item.url@ by {}
                assert forall|i: int|
                    0 <= i < self.artifacts@.len() implies has_id(
                    self.runs@,
                    #[trigger] self.artifacts@[i].item.run_id,
                ) by {
                    lemma_row_lookup_update(
                        pre_runs,
                        k as int,
                        new_row,
                        self.artifacts@[i].item.run_id,
                    );
                }
                assert forall|i: int|
                    0 <= i < self.issues@.len() implies issue_contained(
                    self.runs@,
                    self.tags@,
                    self.artifacts@,
                    #[trigger] self.issues@[i].item,
                ) by {
                    let iss = self.issues@[i].item;
                    assert(issue_contained(pre_runs, self.tags@, self.artifacts@, iss));
                    lemma_row_lookup_update(pre_runs, k as int, new_row, iss.run_id);
                    if iss.run_id == new_row.id {
                        assert(row_by_id(pre_runs, iss.run_id) == pre_runs[k as int]) by {
                            let w = choose|w: int|
                                0 <= w < pre_runs.len() && #[trigger] pre_runs[w].id == iss.run_id;
                            assert(w == k as int) by {
                                if w != k as int {
                                    assert(pre_runs[w].id != pre_runs[k as int].id);
                                }
                            }
                        }
                    }
                }
            }
            k += 1;
        }
    }

    /// Whether some run is still unparsed (its fingerprint is absent).
    pub fn has_untagged_runs(&self) -> (r: bool)
        ensures
            r == exists|i: int|
                0 <= i < self.runs@.len() && #[trigger] self.runs@[i].item.tag_schema is None,
    {
        let mut k: usize = 0;
        while k < self.runs.len()
            invariant
                k <= self.runs@.len(),
                forall|i: int| 0 <= i < k ==> #[trigger] self.runs@[i].item.tag_schema is Some,
            decreases self.runs@.len() - k,
        {
            if self.runs[k].item.tag_schema.is_none() {
                return true;
            }
            k += 1;
        }
        false
    }

    /// Purge all rows (but not tables) from the cache.
    pub fn purge_cache(&mut self)
        ensures
            final(self).wf(),
            final(self).jobs@.len() == 0,
            final(self).builds@.len() == 0,
            final(self).runs@.len() == 0,
            final(self).artifacts@.len() == 0,
            final(self).issues@.len() == 0,
            final(self).tags@.len() == 0,
            final(self).similarities@.len() == 0,
            final(self).next_id == old(self).next_id || final(self).next_id == 1,
            1 <= final(self).next_id,
    {
        self.similarities.clear();
        self.issues.clear();
        self.artifacts.clear();
        self.runs.clear();
        self.builds.clear();
        self.jobs.clear();
        self.tags.clear();
        if self.next_id < 1 {
            self.next_id = 1;
        }
    }
}

impl Database {
    /// Look a run up by url. Absence is an explicit `None`, never an
    /// error: this is the cache-hit test of the puller.
    pub fn get_run(&self, url: &[u8]) -> (r: Option<i64>)
        ensures
            match r {
                Some(id) => exists|i: int|
                    0 <= i < self.runs@.len() && #[trigger] self.runs@[i].id == id
                        && self.runs@[i].item.url@ == url@,
                None => !has_run_url(self.runs@, url@),
            },
    {
        let mut j: usize = 0;
        while j < self.runs.len()
            invariant
                j <= self.runs@.len(),
                forall|k: int| 0 <= k < j ==> #[trigger] self.runs@[k].item.url@ != url@,
            decreases self.runs@.len() - j,
        {
            if bytes_eq(self.runs[j].item.url.as_slice(), url) {
                return Some(self.runs[j].id);
            }
            j += 1;
        }
        None
    }

    /// Look a tag up by name, returning its row id.
    pub fn get_tag_by_name(&self, name: &[u8]) -> (r: Option<i64>)
        ensures
            match r {
                Some(id) => exists|i: int|
                    0 <= i < self.tags@.len() && #[trigger] self.tags@[i].id == id
                        && self.tags@[i].item.name@ == name@,
                None => !has_tag_named(self.tags@, name@),
            },
    {
        let mut j: usize = 0;
        while j < self.tags.len()
            invariant
                j <= self.tags@.len(),
                forall|k: int| 0 <= k < j ==> #[trigger] self.tags@[k].item.name@ != name@,
            decreases self.tags@.len() - j,
        {
            if bytes_eq(self.tags[j].item.name.as_slice(), name) {
                return Some(self.tags[j].id);
            }
            j += 1;
        }
        None
    }

    /// Look a build up by its owning job and number, returning its row id.
    pub fn get_build(&self, job_id: i64, number: u32) -> (r: Option<i64>)
        ensures
            match r {
                Some(id) => exists|i: int|
                    0 <= i < self.builds@.len() && #[trigger] self.builds@[i].id == id
                        && self.builds@[i].item.job_id == job_id && self.builds@[i].item.number
                        == number,
                None => forall|i: int|
                    0 <= i < self.builds@.len() ==> !((#[trigger] self.builds@[i]).item.job_id
                        == job_id && self.builds@[i].item.number == number),
            },
    {
        let mut j: usize = 0;
        while j < self.builds.len()
            invariant
                j <= self.builds@.len(),
                forall|k: int|
                    0 <= k < j ==> !((#[trigger] self.builds@[k]).item.job_id == job_id
                        && self.builds@[k].item.number == number),
            decreases self.builds@.len() - j,
        {
            if self.builds[j].item.job_id == job_id && self.builds[j].item.number == number {
                return Some(self.builds[j].id);
            }
            j += 1;
        }
        None
    }

    /// A run's display name by id.
    pub fn get_run_display_name(&self, id: i64) -> (r: Option<Vec<u8>>)
        ensures
            match r {
                Some(name) => has_id(self.runs@, id) && exists|i: int|
                    0 <= i < self.runs@.len() && #[trigger] self.runs@[i].id == id
                        && self.runs@[i].item.display_name@ == name@,
                None => !has_id(self.runs@, id),
            },
    {
        let mut j: usize = 0;
        while j < self.runs.len()
            invariant
                j <= self.runs@.len(),
                forall|k: int| 0 <= k < j ==> #[trigger] self.runs@[k].id != id,
            decreases self.runs@.len() - j,
        {
            if self.runs[j].id == id {
                proof {
                    assert(self.runs@[j as int].id == id);
                }
                return Some(clone_bytes(&self.runs[j].item.display_name));
            }
            j += 1;
        }
        None
    }
}

/// Copy the byte range `s .. e` out of `v`.
pub fn copy_range(v: &Vec<u8>, s: usize, e: usize) -> (r: Vec<u8>)
    requires
        s <= e <= v@.len(),
    ensures
        r@ == v@.subrange(s as int, e as int),
{
    let mut r: Vec<u8> = Vec::new();
    let mut k: usize = s;
    while k < e
        invariant
            s <= k <= e <= v@.len(),
            r@ =~= v@.subrange(s as int, k as int),
        decreases e - k,
    {
        r.push(v[k]);
        proof {
            assert(r@ =~= v@.subrange(s as int, k as int + 1));
        }
        k += 1;
    }
    proof {
        assert(r@ =~= v@.subrange(s as int, e as int));
    }
    r
}

/// Upsert idempotence for jobs: applying the same upsert twice yields the
/// same table, counter and row as applying it once.
pub proof fn lemma_upsert_job_idempotent(jobs: Seq<InDatabase<Job>>, next_id: i64, job: Job)
    requires
        job_names_unique(jobs),
    ensures
        spec_upsert_job(
            spec_upsert_job(jobs, next_id, job).0,
            spec_upsert_job(jobs, next_id, job).1,
            job,
        ) == spec_upsert_job(jobs, next_id, job),
{
    let (s1, n1, r1) = spec_upsert_job(jobs, next_id, job);
    if has_job_named(jobs, job.name@) {
        let j = choose|j: int| 0 <= j < jobs.len() && #[trigger] jobs[j].item.name@ == job.name@;
        assert(s1 == jobs.update(j, r1));
        assert forall|i: int| 0 <= i < s1.len() implies #[trigger] s1[i].item.name@
            == jobs[i].item.name@ by {}
        assert(s1[j].item.name@ == job.name@);
        assert(has_job_named(s1, job.name@));
        let j2 = choose|j2: int| 0 <= j2 < s1.len() && #[trigger] s1[j2].item.name@ == job.name@;
        assert(j2 == j) by {
            if j2 != j {
                assert(jobs[j2].item.name@ != jobs[j].item.name@);
            }
        }
        let r2 = InDatabase {
            id: s1[j].id,
            item: Job {
                name: s1[j].item.name,
                url: s1[j].item.url,
                last_build: job.last_build,
            },
        };
        assert(r2 == r1);
        assert(s1.update(j, r2) =~= s1);
    } else {
        assert(s1 == jobs.push(r1));
        assert(s1[s1.len() - 1].item.name@ == job.name@);
        assert(has_job_named(s1, job.name@));
        let j2 = choose|j2: int| 0 <= j2 < s1.len() && #[trigger] s1[j2].item.name@ == job.name@;
        assert(j2 == s1.len() - 1) by {
            if j2 < s1.len() - 1 {
                assert(jobs[j2].item.name@ == s1[j2].item.name@);
                assert(!has_job_named(jobs, job.name@));
                assert(jobs[j2].item.name@ != job.name@);
            }
        }
        let r2 = InDatabase {
            id: s1[j2].id,
            item: Job {
                name: s1[j2].item.name,
                url: s1[j2].item.url,
                last_build: job.last_build,
            },
        };
        assert(r2 == r1);
        assert(s1.update(j2, r2) =~= s1);
    }
}

/// Upsert idempotence for builds.
pub proof fn lemma_upsert_build_idempotent(
    builds: Seq<InDatabase<JobBuild>>,
    next_id: i64,
    build: JobBuild,
)
    requires
        build_urls_unique(builds),
    ensures
        spec_upsert_build(
            spec_upsert_build(builds, next_id, build).0,
            spec_upsert_build(builds, next_id, build).1,
            build,
        ) == spec_upsert_build(builds, next_id, build),
{
    let (s1, n1, r1) = spec_upsert_build(builds, next_id, build);
    if has_build_url(builds, build.url@) {
        let j = choose|j: int| 0 <= j < builds.len() && #[trigger] builds[j].item.url@
            == build.url@;
        assert(s1 == builds.update(j, r1));
        assert forall|i: int| 0 <= i < s1.len() implies #[trigger] s1[i].item.url@
            == builds[i].item.url@ by {}
        assert(s1[j].item.url@ == build.url@);
        assert(has_build_url(s1, build.url@));
        let j2 = choose|j2: int| 0 <= j2 < s1.len() && #[trigger] s1[j2].item.url@ == build.url@;
        assert(j2 == j) by {
            if j2 != j {
                assert(builds[j2].item.url@ != builds[j].item.url@);
            }
        }
        let r2 = InDatabase {
            id: s1[j].id,
            item: JobBuild {
                url: s1[j].item.url,
                status: build.status,
                number: build.number,
                timestamp: build.timestamp,
                job_id: build.job_id,
            },
        };
        assert(r2 == r1);
        assert(s1.update(j, r2) =~= s1);
    } else {
        assert(s1 == builds.push(r1));
        assert(s1[s1.len() - 1].item.url@ == build.url@);
        assert(has_build_url(s1, build.url@));
        let j2 = choose|j2: int| 0 <= j2 < s1.len() && #[trigger] s1[j2].item.url@ == build.url@;
        assert(j2 == s1.len() - 1) by {
            if j2 < s1.len() - 1 {
                assert(builds[j2].item.url@ == s1[j2].item.url@);
                assert(!has_build_url(builds, build.url@));
                assert(builds[j2].item.url@ != build.url@);
            }
        }
        let r2 = InDatabase {
            id: s1[j2].id,
            item: JobBuild {
                url: s1[j2].item.url,
                status: build.status,
                number: build.number,
                timestamp: build.timestamp,
                job_id: build.job_id,
            },
        };
        assert(r2 == r1);
        assert(s1.update(j2, r2) =~= s1);
    }
}

/// Upsert idempotence for runs.
pub proof fn lemma_upsert_run_idempotent(runs: Seq<InDatabase<Run>>, next_id: i64, run: Run)
    requires
        run_urls_unique(runs),
    ensures
        spec_upsert_run(
            spec_upsert_run(runs, next_id, run).0,
            spec_upsert_run(runs, next_id, run).1,
            run,
        ) == spec_upsert_run(runs, next_id, run),
{
    let (s1, n1, r1) = spec_upsert_run(runs, next_id, run);
    if has_run_url(runs, run.url@) {
        let j = choose|j: int| 0 <= j < runs.len() && #[trigger] runs[j].item.url@ == run.url@;
        assert(s1 == runs.update(j, r1));
        assert forall|i: int| 0 <= i < s1.len() implies #[trigger] s1[i].item.url@
            == runs[i].item.url@ by {}
        assert(s1[j].item.url@ == run.url@);
        assert(has_run_url(s1, run.url@));
        let j2 = choose|j2: int| 0 <= j2 < s1.len() && #[trigger] s1[j2].item.url@ == run.url@;
        assert(j2 == j) by {
            if j2 != j {
                assert(runs[j2].item.url@ != runs[j].item.url@);
            }
        }
        let r2 = InDatabase {
            id: s1[j].id,
            item: Run {
                url: s1[j].item.url,
                status: run.status,
                display_name: run.display_name,
                log: run.log,
                tag_schema: run.tag_schema,
                build_id: run.build_id,
            },
        };
        assert(r2 == r1);
        assert(s1.update(j, r2) =~= s1);
    } else {
        assert(s1 == runs.push(r1));
        assert(s1[s1.len() - 1].item.url@ == run.url@);
        assert(has_run_url(s1, run.url@));
        let j2 = choose|j2: int| 0 <= j2 < s1.len() && #[trigger] s1[j2].item.url@ == run.url@;
        assert(j2 == s1.len() - 1) by {
            if j2 < s1.len() - 1 {
                assert(runs[j2].item.url@ == s1[j2].item.url@);
                assert(!has_run_url(runs, run.url@));
                assert(runs[j2].item.url@ != run.url@);
            }
        }
        let r2 = InDatabase {
            id: s1[j2].id,
            item: Run {
                url: s1[j2].item.url,
                status: run.status,
                display_name: run.display_name,
                log: run.log,
                tag_schema: run.tag_schema,
                build_id: run.build_id,
            },
        };
        assert(r2 == r1);
        assert(s1.update(j2, r2) =~= s1);
    }
}

/// Upsert idempotence for tags.
pub proof fn lemma_upsert_tag_idempotent(tags: Seq<InDatabase<TagInfo>>, next_id: i64, tag: TagInfo)
    requires
        tag_names_unique(tags),
    ensures
        spec_upsert_tag(
            spec_upsert_tag(tags, next_id, tag).0,
            spec_upsert_tag(tags, next_id, tag).1,
            tag,
        ) == spec_upsert_tag(tags, next_id, tag),
{
    let (s1, n1, r1) = spec_upsert_tag(tags, next_id, tag);
    if has_tag_named(tags, tag.name@) {
        let j = choose|j: int| 0 <= j < tags.len() && #[trigger] tags[j].item.name@ == tag.name@;
        assert(s1 == tags.update(j, r1));
        assert forall|i: int| 0 <= i < s1.len() implies #[trigger] s1[i].item.name@
            == tags[i].item.name@ by {}
        assert(s1[j].item.name@ == tag.name@);
        assert(has_tag_named(s1, tag.name@));
        let j2 = choose|j2: int| 0 <= j2 < s1.len() && #[trigger] s1[j2].item.name@ == tag.name@;
        assert(j2 == j) by {
            if j2 != j {
                assert(tags[j2].item.name@ != tags[j].item.name@);
            }
        }
        let r2 = InDatabase {
            id: s1[j].id,
            item: TagInfo {
                name: s1[j].item.name,
                desc: tag.desc,
                field: tag.field,
                severity: tag.severity,
            },
        };
        assert(r2 == r1);
        assert(s1.update(j, r2) =~= s1);
    } else {
        assert(s1 == tags.push(r1));
        assert(s1[s1.len() - 1].item.name@ == tag.name@);
        assert(has_tag_named(s1, tag.name@));
        let j2 = choose|j2: int| 0 <= j2 < s1.len() && #[trigger] s1[j2].item.name@ == tag.name@;
        assert(j2 == s1.len() - 1) by {
            if j2 < s1.len() - 1 {
                assert(tags[j2].item.name@ == s1[j2].item.name@);
                assert(!has_tag_named(tags, tag.name@));
                assert(tags[j2].item.name@ != tag.name@);
            }
        }
        let r2 = InDatabase {
            id: s1[j2].id,
            item: TagInfo {
                name: s1[j2].item.name,
                desc: tag.desc,
                field: tag.field,
                severity: tag.severity,
            },
        };
        assert(r2 == r1);
        assert(s1.update(j2, r2) =~= s1);
    }
}

/// Referential containment: in a well-formed cache, every finding's
/// snippet range lies within the field its tag selects — the console log
/// of its run, the run's display name, or its artifact's contents.
pub proof fn lemma_findings_contained(db: Database)
    requires
        db.wf(),
    ensures
        forall|i: int|
            0 <= i < db.issues@.len() ==> issue_contained(
                db.runs@,
                db.tags@,
                db.artifacts@,
                (#[trigger] db.issues@[i]).item,
            ),
{
}

/// No singleton similarities: in a well-formed cache, every similarity
/// hash is shared by at least two rows with distinct findings.
pub proof fn lemma_no_singleton_similarities(db: Database)
    requires
        db.wf(),
    ensures
        forall|i: int|
            0 <= i < db.similarities@.len() ==> #[trigger] sim_has_partner(db.similarities@, i),
{
}

/// One similarity group as read back from the cache: the group hash and
/// the member findings.
pub struct Similarity {
    /// The group's 64-bit identifier.
    pub hash: u64,
    /// The ids of the member findings.
    pub issue_ids: Vec<i64>,
}

/// Every listed member is stored under the group's hash.
pub open spec fn group_sound(sims: Seq<InDatabase<SimilarityInfo>>, g: Similarity) -> bool {
    forall|x: int|
        0 <= x < g.issue_ids@.len() ==> exists|w: int|
            0 <= w < sims.len() && (#[trigger] sims[w]).item.similarity_hash == g.hash
                && sims[w].item.issue_id == #[trigger] g.issue_ids@[x]
}

/// Every id listed is stored under hash `h`.
pub open spec fn ids_sound(sims: Seq<InDatabase<SimilarityInfo>>, h: u64, ids: Seq<i64>) -> bool {
    forall|x: int|
        0 <= x < ids.len() ==> exists|w: int|
            0 <= w < sims.len() && (#[trigger] sims[w]).item.similarity_hash == h
                && sims[w].item.issue_id == #[trigger] ids[x]
}

/// Whether some group of the list carries the hash `h`.
pub open spec fn hash_listed(groups: Seq<Similarity>, h: u64) -> bool {
    exists|i: int| 0 <= i < groups.len() && (#[trigger] groups[i]).hash == h
}

/// Every finding stored under the group's hash is listed.
pub open spec fn group_complete(sims: Seq<InDatabase<SimilarityInfo>>, g: Similarity) -> bool {
    forall|w: int|
        0 <= w < sims.len() && (#[trigger] sims[w]).item.similarity_hash == g.hash
            ==> g.issue_ids@.contains(sims[w].item.issue_id)
}

impl Database {
    /// Read every similarity group: one entry per distinct hash, in first
    /// appearance order, holding exactly the member findings stored under
    /// that hash.
    ///
    /// For a report scoped to each job's most recent build, compose this
    /// with the read side: resolve each member finding through
    /// `select_all_issues` for its tag and snippet, and keep the groups
    /// whose member runs appear in the latest-run lists of
    /// `Statistics::query`.
    #[verifier::rlimit(60)]
    #[verifier::spinoff_prover]
    pub fn get_similarities(&self) -> (r: Vec<Similarity>)
        ensures
            forall|i: int, j: int|
                0 <= i < j < r@.len() ==> (#[trigger] r@[i]).hash != (#[trigger] r@[j]).hash,
            forall|i: int|
                0 <= i < r@.len() ==> group_sound(self.similarities@, #[trigger] r@[i])
                    && group_complete(self.similarities@, r@[i]),
            forall|w: int|
                0 <= w < self.similarities@.len() ==> hash_listed(
                    r@,
                    (#[trigger] self.similarities@[w]).item.similarity_hash,
                ),
    {
        let sims = &self.similarities;
        let mut r: Vec<Similarity> = Vec::new();
        let mut k: usize = 0;
        while k < sims.len()
            invariant
                sims == &self.similarities,
                k <= sims@.len(),
                forall|i: int, j: int|
                    0 <= i < j < r@.len() ==> (#[trigger] r@[i]).hash != (#[trigger] r@[j]).hash,
                forall|i: int|
                    0 <= i < r@.len() ==> group_sound(sims@, #[trigger] r@[i]) && group_complete(
                        sims@,
                        r@[i],
                    ),
                forall|w: int|
                    0 <= w < k ==> hash_listed(r@, (#[trigger] sims@[w]).item.similarity_hash),
            decreases sims@.len() - k,
        {
            let h = sims[k].item.similarity_hash;
            let mut seen: bool = false;
            let mut g: usize = 0;
            while g < r.len()
                invariant
                    g <= r@.len(),
                    seen ==> exists|i: int| 0 <= i < r@.len() && (#[trigger] r@[i]).hash == h,
                    !seen ==> forall|i: int| 0 <= i < g ==> (#[trigger] r@[i]).hash != h,
                decreases r@.len() - g,
            {
                if r[g].hash == h {
                    seen = true;
                }
                g += 1;
            }
            if !seen {
                let mut ids: Vec<i64> = Vec::new();
                let mut m: usize = 0;
                while m < sims.len()
                    invariant
                        sims == &self.similarities,
                        m <= sims@.len(),
                        ids_sound(sims@, h, ids@),
                        forall|w: int|
                            0 <= w < m && (#[trigger] sims@[w]).item.similarity_hash == h
                                ==> ids@.contains(sims@[w].item.issue_id),
                    decreases sims@.len() - m,
                {
                    let ghost pre_ids = ids@;
                    if sims[m].item.similarity_hash == h {
                        ids.push(sims[m].item.issue_id);
                    }
                    proof {
                        assert(ids_sound(sims@, h, pre_ids));
                        assert forall|x: int|
                            0 <= x < ids@.len() implies exists|w: int|
                            0 <= w < sims@.len() && (#[trigger] sims@[w]).item.similarity_hash == h
                                && sims@[w].item.issue_id == #[trigger] ids@[x] by {
                            if x < pre_ids.len() {
                                assert(ids@[x] == pre_ids[x]);
                                assert(pre_ids[x] == pre_ids[x]);
                            } else {
                                assert(ids@[x] == sims@[m as int].item.issue_id);
                            }
                        }
                        assert forall|w: int|
                            0 <= w < m + 1 && (#[trigger] sims@[w]).item.similarity_hash == h
                                implies ids@.contains(sims@[w].item.issue_id) by {
                            if w < m {
                                assert(pre_ids.contains(sims@[w].item.issue_id));
                                let x = choose|x: int|
                                    0 <= x < pre_ids.len() && pre_ids[x] == sims@[w].item.issue_id;
                                assert(ids@[x] == sims@[w].item.issue_id);
                            } else {
                                assert(ids@[ids@.len() - 1] == sims@[w].item.issue_id);
                            }
                        }
                    }
                    m += 1;
                }
                let ghost pre_r = r@;
                let ghost gids = ids@;
                r.push(Similarity { hash: h, issue_ids: ids });
                proof {
                    assert(r@[r@.len() - 1].hash == h);
                    assert(r@[r@.len() - 1].issue_ids@ == gids);
                    assert forall|i: int|
                        0 <= i < r@.len() implies group_sound(sims@, #[trigger] r@[i])
                        && group_complete(sims@, r@[i]) by {
                        if i < pre_r.len() {
                            assert(r@[i] == pre_r[i]);
                            assert(group_sound(sims@, pre_r[i]) && group_complete(
                                sims@,
                                pre_r[i],
                            ));
                        } else {
                            let gnew = r@[i];
                            assert(gnew.hash == h && gnew.issue_ids@ == gids);
                            assert(ids_sound(sims@, h, gids));
                            assert forall|x: int|
                                0 <= x < gnew.issue_ids@.len() implies exists|w: int|
                                0 <= w < sims@.len() && (#[trigger] sims@[w]).item.similarity_hash
                                    == gnew.hash && sims@[w].item.issue_id
                                    == #[trigger] gnew.issue_ids@[x] by {
                                assert(gnew.issue_ids@[x] == gids[x]);
                                assert(gids[x] == gids[x]);
                            }
                            assert forall|w: int|
                                0 <= w < sims@.len() && (#[trigger] sims@[w]).item.similarity_hash
                                    == gnew.hash implies gnew.issue_ids@.contains(
                                sims@[w].item.issue_id,
                            ) by {
                                assert(gids.contains(sims@[w].item.issue_id));
                            }
                        }
                    }
                    assert forall|i: int, j: int|
                        0 <= i < j < r@.len() implies (#[trigger] r@[i]).hash
                        != (#[trigger] r@[j]).hash by {
                        if j == r@.len() - 1 {
                            assert(r@[i] == pre_r[i]);
                        } else {
                            assert(r@[i] == pre_r[i] && r@[j] == pre_r[j]);
                        }
                    }
                    assert forall|w: int|
                        0 <= w < k + 1 implies hash_listed(
                        r@,
                        (#[trigger] sims@[w]).item.similarity_hash,
                    ) by {
                        if w < k {
                            assert(hash_listed(pre_r, sims@[w].item.similarity_hash));
                            let i = choose|i: int|
                                0 <= i < pre_r.len() && (#[trigger] pre_r[i]).hash
                                    == sims@[w].item.similarity_hash;
                            assert(r@[i].hash == sims@[w].item.similarity_hash);
                        } else {
                            assert(r@[r@.len() - 1].hash == sims@[w].item.similarity_hash);
                        }
                    }
                }
            } else {
                proof {
                    assert forall|w: int|
                        0 <= w < k + 1 implies hash_listed(
                        r@,
                        (#[trigger] sims@[w]).item.similarity_hash,
                    ) by {
                        if w == k {
                            let i = choose|i: int| 0 <= i < r@.len() && (#[trigger] r@[i]).hash == h;
                            assert(hash_listed(r@, h));
                        }
                    }
                }
            }
            k += 1;
        }
        proof {
            assert forall|w: int|
                0 <= w < self.similarities@.len() implies hash_listed(
                r@,
                (#[trigger] self.similarities@[w]).item.similarity_hash,
            ) by {
                assert(hash_listed(r@, sims@[w].item.similarity_hash));
            }
        }
        r
    }
}

/// Pointwise row equality of two tag tables up to byte-string views.
pub open spec fn tag_rows_like(a: Seq<InDatabase<TagInfo>>, b: Seq<InDatabase<TagInfo>>) -> bool {
    a.len() == b.len() && forall|i: int|
        0 <= i < a.len() ==> (#[trigger] a[i]).id == b[i].id && tag_like(a[i].item, b[i].item)
}

/// Upserting like tags into like tables (with unique names) yields like
/// tables and the same id counter.
pub proof fn lemma_spec_upsert_tag_like(
    t1: Seq<InDatabase<TagInfo>>,
    t2: Seq<InDatabase<TagInfo>>,
    next: i64,
    a: TagInfo,
    b: TagInfo,
)
    requires
        tag_rows_like(t1, t2),
        tag_names_unique(t1),
        tag_like(a, b),
    ensures
        tag_rows_like(spec_upsert_tag(t1, next, a).0, spec_upsert_tag(t2, next, b).0),
        spec_upsert_tag(t1, next, a).1 == spec_upsert_tag(t2, next, b).1,
{
    assert(has_tag_named(t1, a.name@) == has_tag_named(t2, b.name@)) by {
        if has_tag_named(t1, a.name@) {
            let j = choose|j: int| 0 <= j < t1.len() && #[trigger] t1[j].item.name@ == a.name@;
            assert(t2[j].item.name@ == b.name@);
        }
        if has_tag_named(t2, b.name@) {
            let j = choose|j: int| 0 <= j < t2.len() && #[trigger] t2[j].item.name@ == b.name@;
            assert(t1[j].item.name@ == a.name@);
        }
    }
    if has_tag_named(t1, a.name@) {
        let j1 = choose|j: int| 0 <= j < t1.len() && #[trigger] t1[j].item.name@ == a.name@;
        let j2 = choose|j: int| 0 <= j < t2.len() && #[trigger] t2[j].item.name@ == b.name@;
        assert(j1 == j2) by {
            if j1 != j2 {
                assert(t1[j2].item.name@ == t2[j2].item.name@);
                assert(t1[j1].item.name@ != t1[j2].item.name@);
            }
        }
        let s1 = spec_upsert_tag(t1, next, a).0;
        let s2 = spec_upsert_tag(t2, next, b).0;
        assert forall|i: int| 0 <= i < s1.len() implies (#[trigger] s1[i]).id == s2[i].id
            && tag_like(s1[i].item, s2[i].item) by {
            if i != j1 {
                assert(s1[i] == t1[i] && s2[i] == t2[i]);
            }
        }
    } else {
        let s1 = spec_upsert_tag(t1, next, a).0;
        let s2 = spec_upsert_tag(t2, next, b).0;
        assert forall|i: int| 0 <= i < s1.len() implies (#[trigger] s1[i]).id == s2[i].id
            && tag_like(s1[i].item, s2[i].item) by {
            if i < t1.len() {
                assert(s1[i] == t1[i] && s2[i] == t2[i]);
            } else {
                assert(s1[i] == InDatabase { id: next, item: a });
                assert(s2[i] == InDatabase { id: next, item: b });
            }
        }
    }
}

/// Decide id discipline for one table: pairwise distinct ids, each in
/// `1 .. next`.
fn check_ids<T>(rows: &Vec<InDatabase<T>>, next: i64) -> (r: bool)
    ensures
        r == (ids_unique(rows@) && ids_below(rows@, next)),
{
    let mut i: usize = 0;
    while i < rows.len()
        invariant
            i <= rows@.len(),
            forall|a: int| 0 <= a < i ==> 1 <= (#[trigger] rows@[a].id) < next,
            forall|a: int, b: int|
                0 <= a < b < i ==> #[trigger] rows@[a].id != #[trigger] rows@[b].id,
        decreases rows@.len() - i,
    {
        if rows[i].id < 1 || rows[i].id >= next {
            proof {
                assert(!ids_below(rows@, next));
            }
            return false;
        }
        let mut j: usize = 0;
        while j < i
            invariant
                j <= i < rows@.len(),
                forall|b: int| 0 <= b < j ==> #[trigger] rows@[b].id != rows@[i as int].id,
            decreases i - j,
        {
            if rows[j].id == rows[i].id {
                proof {
                    assert(!ids_unique(rows@));
                }
                return false;
            }
            j += 1;
        }
        i += 1;
    }
    true
}

/// Decide job-name uniqueness.
fn check_job_names(rows: &Vec<InDatabase<Job>>) -> (r: bool)
    ensures
        r == job_names_unique(rows@),
{
    let mut i: usize = 0;
    while i < rows.len()
        invariant
            i <= rows@.len(),
            forall|a: int, b: int|
                0 <= a < b < i ==> #[trigger] rows@[a].item.name@ != #[trigger] rows@[b].item.name@,
        decreases rows@.len() - i,
    {
        let mut j: usize = 0;
        while j < i
            invariant
                j <= i < rows@.len(),
                forall|b: int| 0 <= b < j ==> #[trigger] rows@[b].item.name@ != rows@[i as int].item.name@,
            decreases i - j,
        {
            if bytes_eq(rows[j].item.name.as_slice(), rows[i].item.name.as_slice()) {
                proof {
                    assert(!job_names_unique(rows@));
                }
                return false;
            }
            j += 1;
        }
        i += 1;
    }
    true
}

/// Decide build-url uniqueness.
fn check_build_urls(rows: &Vec<InDatabase<JobBuild>>) -> (r: bool)
    ensures
        r == build_urls_unique(rows@),
{
    let mut i: usize = 0;
    while i < rows.len()
        invariant
            i <= rows@.len(),
            forall|a: int, b: int|
                0 <= a < b < i ==> #[trigger] rows@[a].item.url@ != #[trigger] rows@[b].item.url@,
        decreases rows@.len() - i,
    {
        let mut j: usize = 0;
        while j < i
            invariant
                j <= i < rows@.len(),
                forall|b: int| 0 <= b < j ==> #[trigger] rows@[b].item.url@ != rows@[i as int].item.url@,
            decreases i - j,
        {
            if bytes_eq(rows[j].item.url.as_slice(), rows[i].item.url.as_slice()) {
                proof {
                    assert(!build_urls_unique(rows@));
                }
                return false;
            }
            j += 1;
        }
        i += 1;
    }
    true
}

/// Decide run-url uniqueness.
fn check_run_urls(rows: &Vec<InDatabase<Run>>) -> (r: bool)
    ensures
        r == run_urls_unique(rows@),
{
    let mut i: usize = 0;
    while i < rows.len()
        invariant
            i <= rows@.len(),
            forall|a: int, b: int|
                0 <= a < b < i ==> #[trigger] rows@[a].item.url@ != #[trigger] rows@[b].item.url@,
        decreases rows@.len() - i,
    {
        let mut j: usize = 0;
        while j < i
            invariant
                j <= i < rows@.len(),
                forall|b: int| 0 <= b < j ==> #[trigger] rows@[b].item.url@ != rows@[i as int].item.url@,
            decreases i - j,
        {
            if bytes_eq(rows[j].item.url.as_slice(), rows[i].item.url.as_slice()) {
                proof {
                    assert(!run_urls_unique(rows@));
                }
                return false;
            }
            j += 1;
        }
        i += 1;
    }
    true
}

/// Decide tag-name uniqueness.
fn check_tag_names(rows: &Vec<InDatabase<TagInfo>>) -> (r: bool)
    ensures
        r == tag_names_unique(rows@),
{
    let mut i: usize = 0;
    while i < rows.len()
        invariant
            i <= rows@.len(),
            forall|a: int, b: int|
                0 <= a < b < i ==> #[trigger] rows@[a].item.name@ != #[trigger] rows@[b].item.name@,
        decreases rows@.len() - i,
    {
        let mut j: usize = 0;
        while j < i
            invariant
                j <= i < rows@.len(),
                forall|b: int| 0 <= b < j ==> #[trigger] rows@[b].item.name@ != rows@[i as int].item.name@,
            decreases i - j,
        {
            if bytes_eq(rows[j].item.name.as_slice(), rows[i].item.name.as_slice()) {
                proof {
                    assert(!tag_names_unique(rows@));
                }
                return false;
            }
            j += 1;
        }
        i += 1;
    }
    true
}

/// Decide referential containment of one finding.
fn check_issue(
    runs: &Vec<InDatabase<Run>>,
    tags: &Vec<InDatabase<TagInfo>>,
    artifacts: &Vec<InDatabase<Artifact>>,
    iss: IssueInfo,
) -> (r: bool)
    requires
        ids_unique(runs@),
        ids_unique(tags@),
        ids_unique(artifacts@),
    ensures
        r == issue_contained(runs@, tags@, artifacts@, iss),
{
    let rw = match crate::db::purge::find_by_id(runs, iss.run_id) {
        Some(w) => w,
        None => {
            return false;
        },
    };
    let tw = match crate::db::purge::find_by_id(tags, iss.tag_id) {
        Some(w) => w,
        None => {
            return false;
        },
    };
    match tags[tw].item.field {
        Field::Console => match &runs[rw].item.log {
            Some(log) => iss.artifact_id.is_none() && iss.snippet_start <= iss.snippet_end
                && iss.snippet_end <= log.len(),
            None => false,
        },
        Field::RunName => iss.artifact_id.is_none() && iss.snippet_start <= iss.snippet_end
            && iss.snippet_end <= runs[rw].item.display_name.len(),
        Field::Artifact => match iss.artifact_id {
            Some(aid) => match crate::db::purge::find_by_id(artifacts, aid) {
                Some(aw) => artifacts[aw].item.run_id == iss.run_id && iss.snippet_start
                    <= iss.snippet_end && iss.snippet_end <= artifacts[aw].item.contents.len(),
                None => false,
            },
            None => false,
        },
    }
}

/// Decide the no-singleton rule for the similarity table.
fn check_singletons(sims: &Vec<InDatabase<SimilarityInfo>>) -> (r: bool)
    ensures
        r == no_singletons(sims@),
{
    let mut i: usize = 0;
    while i < sims.len()
        invariant
            i <= sims@.len(),
            forall|a: int| 0 <= a < i ==> #[trigger] sim_has_partner(sims@, a),
        decreases sims@.len() - i,
    {
        let mut found: bool = false;
        let mut j: usize = 0;
        while j < sims.len()
            invariant
                i < sims@.len(),
                j <= sims@.len(),
                found ==> sim_has_partner(sims@, i as int),
                !found ==> forall|b: int|
                    0 <= b < j ==> !((#[trigger] sims@[b]).item.similarity_hash
                        == sims@[i as int].item.similarity_hash && sims@[b].item.issue_id
                        != sims@[i as int].item.issue_id),
            decreases sims@.len() - j,
        {
            if sims[j].item.similarity_hash == sims[i].item.similarity_hash
                && sims[j].item.issue_id != sims[i].item.issue_id {
                found = true;
            }
            j += 1;
        }
        if !found {
            proof {
                assert(!sim_has_partner(sims@, i as int));
                assert(!no_singletons(sims@));
            }
            return false;
        }
        i += 1;
    }
    true
}

impl Database {
    /// Decide the whole cache invariant by computation: a mirror loaded
    /// from an untrusted relational file must pass this gate before any
    /// verified operation may rely on `wf`.
    pub fn check_wf(&self) -> (r: bool)
        ensures
            r == self.wf(),
    {
        if self.next_id < 1 {
            return false;
        }
        if !check_ids(&self.jobs, self.next_id) {
            return false;
        }
        if !check_ids(&self.builds, self.next_id) {
            return false;
        }
        if !check_ids(&self.runs, self.next_id) {
            return false;
        }
        if !check_ids(&self.artifacts, self.next_id) {
            return false;
        }
        if !check_ids(&self.issues, self.next_id) {
            return false;
        }
        if !check_ids(&self.tags, self.next_id) {
            return false;
        }
        if !check_ids(&self.similarities, self.next_id) {
            return false;
        }
        if !check_job_names(&self.jobs) {
            return false;
        }
        if !check_build_urls(&self.builds) {
            return false;
        }
        if !check_run_urls(&self.runs) {
            return false;
        }
        if !check_tag_names(&self.tags) {
            return false;
        }
        let mut i: usize = 0;
        while i < self.builds.len()
            invariant
                i <= self.builds@.len(),
                ids_unique(self.jobs@),
                forall|a: int|
                    0 <= a < i ==> has_id(self.jobs@, (#[trigger] self.builds@[a]).item.job_id),
            decreases self.builds@.len() - i,
        {
            if crate::db::purge::find_by_id(&self.jobs, self.builds[i].item.job_id).is_none() {
                proof {
                    assert(!builds_ref_jobs(self.builds@, self.jobs@));
                }
                return false;
            }
            i += 1;
        }
        let mut i: usize = 0;
        while i < self.runs.len()
            invariant
                i <= self.runs@.len(),
                ids_unique(self.builds@),
                forall|a: int|
                    0 <= a < i ==> has_id(self.builds@, (#[trigger] self.runs@[a]).item.build_id),
            decreases self.runs@.len() - i,
        {
            if crate::db::purge::find_by_id(&self.builds, self.runs[i].item.build_id).is_none() {
                proof {
                    assert(!runs_ref_builds(self.runs@, self.builds@));
                }
                return false;
            }
            i += 1;
        }
        let mut i: usize = 0;
        while i < self.artifacts.len()
            invariant
                i <= self.artifacts@.len(),
                ids_unique(self.runs@),
                forall|a: int|
                    0 <= a < i ==> has_id(self.runs@, (#[trigger] self.artifacts@[a]).item.run_id),
            decreases self.artifacts@.len() - i,
        {
            if crate::db::purge::find_by_id(&self.runs, self.artifacts[i].item.run_id).is_none() {
                proof {
                    assert(!artifacts_ref_runs(self.artifacts@, self.runs@));
                }
                return false;
            }
            i += 1;
        }
        let mut i: usize = 0;
        while i < self.similarities.len()
            invariant
                i <= self.similarities@.len(),
                ids_unique(self.issues@),
                forall|a: int|
                    0 <= a < i ==> has_id(
                        self.issues@,
                        (#[trigger] self.similarities@[a]).item.issue_id,
                    ),
            decreases self.similarities@.len() - i,
        {
            if crate::db::purge::find_by_id(&self.issues, self.similarities[i].item.issue_id).is_none() {
                proof {
                    assert(!sims_ref_issues(self.similarities@, self.issues@));
                }
                return false;
            }
            i += 1;
        }
        let mut i: usize = 0;
        while i < self.issues.len()
            invariant
                i <= self.issues@.len(),
                ids_unique(self.runs@),
                ids_unique(self.tags@),
                ids_unique(self.artifacts@),
                forall|a: int|
                    0 <= a < i ==> issue_contained(
                        self.runs@,
                        self.tags@,
                        self.artifacts@,
                        (#[trigger] self.issues@[a]).item,
                    ),
            decreases self.issues@.len() - i,
        {
            if !check_issue(&self.runs, &self.tags, &self.artifacts, self.issues[i].item) {
                proof {
                    assert(!issues_contained(
                        self.runs@,
                        self.tags@,
                        self.artifacts@,
                        self.issues@,
                    ));
                }
                return false;
            }
            i += 1;
        }
        if !check_singletons(&self.similarities) {
            return false;
        }
        true
    }
}

/// Byte-wise equality of two byte strings.
pub fn bytes_eq(a: &[u8], b: &[u8]) -> (r: bool)
    ensures
        r == (a@ == b@),
{
    if a.len() != b.len() {
        assert(a@ != b@) by {
            assert(a@.len() != b@.len());
        }
        return false;
    }
    let mut i: usize = 0;
    while i < a.len()
        invariant
            i <= a.len(),
            a@.len() == b@.len(),
            forall|k: int| 0 <= k < i ==> a@[k] == b@[k],
        decreases a.len() - i,
    {
        if a[i] != b[i] {
            return false;
        }
        i += 1;
    }
    proof {
        assert(a@ =~= b@);
    }
    true
}

/// Copy a byte string.
pub fn clone_bytes(v: &Vec<u8>) -> (r: Vec<u8>)
    ensures
        r@ == v@,
{
    let mut r: Vec<u8> = Vec::new();
    let mut i: usize = 0;
    while i < v.len()
        invariant
            i <= v.len(),
            r@ =~= v@.subrange(0, i as int),
        decreases v.len() - i,
    {
        r.push(v[i]);
        i += 1;
    }
    proof {
        assert(r@ =~= v@);
    }
    r
}

} // verus!
