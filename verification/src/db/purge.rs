//! Cascade deletion: blocklisted jobs, superseded builds, findings parsed
//! with an outdated catalog fingerprint, and orphan tags. Every cascade
//! removes similarity groups whole, by hash, so the no-singleton rule is
//! never broken.

use vstd::prelude::*;

use crate::db::{
    bytes_eq,
    has_id, ids_below, ids_unique, issue_contained, row_by_id, sim_has_partner, Artifact, Database,
    InDatabase, IssueInfo, Job, JobBuild, Run, SimilarityInfo, TagInfo,
};

verus! {

/// The subsequence of `s` whose rows satisfy `p`, in order.
pub open spec fn keep_rows<T>(s: Seq<InDatabase<T>>, p: spec_fn(InDatabase<T>) -> bool) -> Seq<
    InDatabase<T>,
>
    decreases s.len(),
{
    if s.len() == 0 {
        Seq::empty()
    } else {
        let rest = keep_rows(s.drop_last(), p);
        if p(s.last()) {
            rest.push(s.last())
        } else {
            rest
        }
    }
}

/// Structural facts about `keep_rows`: every kept row is a row of `s`
/// satisfying `p`, every row of `s` satisfying `p` is kept, and id
/// discipline carries over.
pub proof fn lemma_keep_rows<T>(s: Seq<InDatabase<T>>, p: spec_fn(InDatabase<T>) -> bool, n: i64)
    ensures
        keep_rows(s, p).len() <= s.len(),
        forall|i: int| #![trigger keep_rows(s, p)[i]]
            0 <= i < keep_rows(s, p).len() ==> s.contains(keep_rows(s, p)[i]) && p(
                keep_rows(s, p)[i],
            ),
        forall|j: int| 0 <= j < s.len() && p(#[trigger] s[j]) ==> keep_rows(s, p).contains(s[j]),
        ids_unique(s) ==> ids_unique(keep_rows(s, p)),
        ids_below(s, n) ==> ids_below(keep_rows(s, p), n),
    decreases s.len(),
{
    if s.len() > 0 {
        let s0 = s.drop_last();
        let x = s.last();
        lemma_keep_rows(s0, p, n);
        assert(ids_unique(s) ==> ids_unique(s0)) by {
            if ids_unique(s) {
                assert forall|i: int, j: int| 0 <= i < j < s0.len() implies #[trigger] s0[i].id
                    != #[trigger] s0[j].id by {
                    assert(s[i].id != s[j].id);
                }
            }
        }
        assert(ids_below(s, n) ==> ids_below(s0, n)) by {
            if ids_below(s, n) {
                assert forall|i: int| 0 <= i < s0.len() implies 1 <= #[trigger] s0[i].id < n by {
                    assert(1 <= s[i].id < n);
                }
            }
        }
        let rest = keep_rows(s0, p);
        let keep = keep_rows(s, p);
        assert forall|i: int| #![trigger keep[i]] 0 <= i < keep.len() implies s.contains(keep[i])
            && p(keep[i]) by {
            if p(x) && i == rest.len() {
                assert(keep[i] == x && x == s[s.len() - 1]);
                assert(s.contains(keep[i])) by {
                    assert(s[s.len() - 1] == keep[i]);
                }
            } else {
                assert(keep[i] == rest[i]);
                assert(s0.contains(rest[i]) && p(rest[i]));
                let j = choose|j: int| 0 <= j < s0.len() && s0[j] == rest[i];
                assert(s[j] == keep[i]);
                assert(s.contains(keep[i]));
            }
        }
        assert forall|j: int| 0 <= j < s.len() && p(#[trigger] s[j]) implies keep.contains(
            s[j],
        ) by {
            if j == s.len() - 1 {
                assert(keep[keep.len() - 1] == s[j]);
            } else {
                assert(s0[j] == s[j]);
                assert(rest.contains(s0[j]));
                let i = choose|i: int| 0 <= i < rest.len() && rest[i] == s0[j];
                assert(keep[i] == s[j]);
            }
        }
        if ids_unique(s) {
            assert forall|i: int, j: int| 0 <= i < j < keep.len() implies #[trigger] keep[i].id
                != #[trigger] keep[j].id by {
                if p(x) && j == rest.len() {
                    assert(keep[i] == rest[i]);
                    assert(s0.contains(rest[i]));
                    let jj = choose|w: int| 0 <= w < s0.len() && s0[w] == rest[i];
                    assert(s[jj].id != s[s.len() - 1].id);
                    assert(keep[j] == x);
                } else {
                    assert(keep[i] == rest[i] && keep[j] == rest[j]);
                }
            }
        }
        if ids_below(s, n) {
            assert forall|i: int| 0 <= i < keep.len() implies 1 <= #[trigger] keep[i].id < n by {
                assert(s.contains(keep[i]));
                let j = choose|j: int| 0 <= j < s.len() && s[j] == keep[i];
                assert(1 <= s[j].id < n);
            }
        }
    }
}

/// Lookups by id are stable under filtering, and a kept id satisfies the
/// filter.
pub proof fn lemma_keep_rows_lookup<T>(
    s: Seq<InDatabase<T>>,
    p: spec_fn(InDatabase<T>) -> bool,
    id: i64,
)
    requires
        ids_unique(s),
    ensures
        has_id(keep_rows(s, p), id) ==> has_id(s, id) && row_by_id(keep_rows(s, p), id)
            == row_by_id(s, id) && p(row_by_id(s, id)),
        has_id(s, id) && p(row_by_id(s, id)) ==> has_id(keep_rows(s, p), id),
{
    let keep = keep_rows(s, p);
    lemma_keep_rows(s, p, i64::MAX);
    if has_id(keep, id) {
        let w = choose|w: int| 0 <= w < keep.len() && #[trigger] keep[w].id == id;
        assert(s.contains(keep[w]) && p(keep[w]));
        let j = choose|j: int| 0 <= j < s.len() && s[j] == keep[w];
        assert(s[j].id == id);
        assert(has_id(s, id));
        let j2 = choose|j2: int| 0 <= j2 < s.len() && #[trigger] s[j2].id == id;
        assert(j2 == j) by {
            if j2 != j {
                assert(s[j2].id != s[j].id);
            }
        }
        assert(row_by_id(s, id) == keep[w]);
        let w2 = choose|w2: int| 0 <= w2 < keep.len() && #[trigger] keep[w2].id == id;
        assert(s.contains(keep[w2]));
        let j3 = choose|j3: int| 0 <= j3 < s.len() && s[j3] == keep[w2];
        assert(s[j3].id == id);
        assert(j3 == j) by {
            if j3 != j {
                assert(s[j3].id != s[j].id);
            }
        }
        assert(row_by_id(keep, id) == keep[w2] && keep[w2] == s[j]);
    }
    if has_id(s, id) && p(row_by_id(s, id)) {
        let j = choose|j: int| 0 <= j < s.len() && #[trigger] s[j].id == id;
        assert(row_by_id(s, id) == s[j]);
        assert(keep.contains(s[j]));
        let i = choose|i: int| 0 <= i < keep.len() && keep[i] == s[j];
        assert(keep[i].id == id);
        assert(has_id(keep, id));
    }
}

/// Two filters that agree on every row of `s` keep the same rows.
pub proof fn lemma_keep_rows_congruence<T>(
    s: Seq<InDatabase<T>>,
    p: spec_fn(InDatabase<T>) -> bool,
    q: spec_fn(InDatabase<T>) -> bool,
)
    requires
        forall|j: int| 0 <= j < s.len() ==> p(#[trigger] s[j]) == q(s[j]),
    ensures
        keep_rows(s, p) == keep_rows(s, q),
    decreases s.len(),
{
    if s.len() > 0 {
        let s0 = s.drop_last();
        assert forall|j: int| 0 <= j < s0.len() implies p(#[trigger] s0[j]) == q(s0[j]) by {
            assert(s0[j] == s[j]);
        }
        lemma_keep_rows_congruence(s0, p, q);
        assert(p(s.last()) == q(s.last()));
    }
}

/// Find the index of the row with id `id`, if any.
pub fn find_by_id<T>(rows: &Vec<InDatabase<T>>, id: i64) -> (r: Option<usize>)
    requires
        ids_unique(rows@),
    ensures
        match r {
            Some(w) => w < rows@.len() && rows@[w as int].id == id && has_id(rows@, id) && row_by_id(
                rows@,
                id,
            ) == rows@[w as int],
            None => !has_id(rows@, id),
        },
{
    let mut k: usize = 0;
    while k < rows.len()
        invariant
            k <= rows@.len(),
            ids_unique(rows@),
            forall|i: int| 0 <= i < k ==> #[trigger] rows@[i].id != id,
        decreases rows@.len() - k,
    {
        if rows[k].id == id {
            proof {
                assert(has_id(rows@, id));
                let w = choose|w: int| 0 <= w < rows@.len() && #[trigger] rows@[w].id == id;
                assert(w == k as int) by {
                    if w != k as int {
                        assert(rows@[w].id != rows@[k as int].id);
                    }
                }
            }
            return Some(k);
        }
        k += 1;
    }
    None
}

/// Whether `v` contains `x`.
pub fn contains_i64(v: &Vec<i64>, x: i64) -> (r: bool)
    ensures
        r == v@.contains(x),
{
    let mut k: usize = 0;
    while k < v.len()
        invariant
            k <= v@.len(),
            forall|i: int| 0 <= i < k ==> #[trigger] v@[i] != x,
        decreases v@.len() - k,
    {
        if v[k] == x {
            return true;
        }
        k += 1;
    }
    false
}

/// Whether `v` contains `x`.
pub fn contains_u64(v: &Vec<u64>, x: u64) -> (r: bool)
    ensures
        r == v@.contains(x),
{
    let mut k: usize = 0;
    while k < v.len()
        invariant
            k <= v@.len(),
            forall|i: int| 0 <= i < k ==> #[trigger] v@[i] != x,
        decreases v@.len() - k,
    {
        if v[k] == x {
            return true;
        }
        k += 1;
    }
    false
}

/// Whether a finding references the tag with id `tag_id`.
pub open spec fn tag_referenced(issues: Seq<InDatabase<IssueInfo>>, tag_id: i64) -> bool {
    exists|k: int| 0 <= k < issues.len() && #[trigger] issues[k].item.tag_id == tag_id
}

/// Whether the finding with id `issue_id` belongs to one of the doomed
/// runs.
pub open spec fn issue_in_doomed_run(
    issues: Seq<InDatabase<IssueInfo>>,
    doomed_runs: Seq<i64>,
    issue_id: i64,
) -> bool {
    has_id(issues, issue_id) && doomed_runs.contains(row_by_id(issues, issue_id).item.run_id)
}

/// Whether the similarity hash `h` has a member finding in a doomed run.
/// Such a group is removed whole, which is what preserves the no-singleton
/// rule across every cascade.
pub open spec fn hash_hits_doomed(
    sims: Seq<InDatabase<SimilarityInfo>>,
    issues: Seq<InDatabase<IssueInfo>>,
    doomed_runs: Seq<i64>,
    h: u64,
) -> bool {
    exists|i: int|
        0 <= i < sims.len() && #[trigger] sims[i].item.similarity_hash == h && issue_in_doomed_run(
            issues,
            doomed_runs,
            sims[i].item.issue_id,
        )
}

impl Database {
    /// Remove every tag that no finding references. Collecting orphan tags
    /// keeps the catalog table in step with the findings.
    pub fn purge_orphan_tags(&mut self)
        requires
            old(self).wf(),
        ensures
            final(self).wf(),
            final(self).tags@ == keep_rows(
                old(self).tags@,
                |t: InDatabase<TagInfo>| tag_referenced(old(self).issues@, t.id),
            ),
            final(self).jobs == old(self).jobs,
            final(self).builds == old(self).builds,
            final(self).runs == old(self).runs,
            final(self).artifacts == old(self).artifacts,
            final(self).issues == old(self).issues,
            final(self).similarities == old(self).similarities,
            final(self).next_id == old(self).next_id,
    {
        let ghost p = |t: InDatabase<TagInfo>| tag_referenced(old(self).issues@, t.id);
        let ghost otags = self.tags@;
        let total = self.tags.len();
        let mut kept: Vec<InDatabase<TagInfo>> = Vec::new();
        let mut k: usize = 0;
        while self.tags.len() > 0
            invariant
                old(self).wf(),
                p == (|t: InDatabase<TagInfo>| tag_referenced(old(self).issues@, t.id)),
                otags == old(self).tags@,
                otags.len() == total,
                k <= otags.len(),
                self.tags@ =~= otags.subrange(k as int, otags.len() as int),
                kept@ == keep_rows(otags.subrange(0, k as int), p),
                self.jobs == old(self).jobs,
                self.builds == old(self).builds,
                self.runs == old(self).runs,
                self.artifacts == old(self).artifacts,
                self.issues == old(self).issues,
                self.similarities == old(self).similarities,
                self.next_id == old(self).next_id,
            decreases self.tags@.len(),
        {
            let row = self.tags.remove(0);
            proof {
                assert(row == otags[k as int]);
                assert(self.tags@ =~= otags.subrange(k as int + 1, otags.len() as int));
            }
            let mut referenced: bool = false;
            let mut i: usize = 0;
            while i < self.issues.len()
                invariant
                    self.issues == old(self).issues,
                    i <= self.issues@.len(),
                    referenced ==> tag_referenced(self.issues@, row.id),
                    !referenced ==> forall|w: int|
                        0 <= w < i ==> #[trigger] self.issues@[w].item.tag_id != row.id,
                decreases self.issues@.len() - i,
            {
                if self.issues[i].item.tag_id == row.id {
                    referenced = true;
                }
                i += 1;
            }
            proof {
                let pre = otags.subrange(0, k as int);
                let cur = otags.subrange(0, k as int + 1);
                assert(cur.drop_last() =~= pre);
                assert(cur.last() == otags[k as int]);
                if referenced {
                    assert(p(otags[k as int]));
                } else {
                    assert(!tag_referenced(self.issues@, row.id));
                    assert(!p(otags[k as int]));
                }
            }
            if referenced {
                kept.push(row);
            }
            k += 1;
        }
        proof {
            assert(otags.subrange(0, k as int) =~= otags);
        }
        self.tags = kept;
        proof {
            let ots = old(self).tags@;
            let ts = self.tags@;
            lemma_keep_rows(ots, p, old(self).next_id);
            assert forall|i: int, j: int| 0 <= i < j < ts.len() implies #[trigger] ts[i].item.name@
                != #[trigger] ts[j].item.name@ by {
                assert(ots.contains(ts[i]) && ots.contains(ts[j]));
                let wi = choose|w: int| 0 <= w < ots.len() && ots[w] == ts[i];
                let wj = choose|w: int| 0 <= w < ots.len() && ots[w] == ts[j];
                assert(wi != wj) by {
                    if wi == wj {
                        assert(ts[i].id == ts[j].id);
                        assert(ids_unique(ts));
                    }
                }
                if wi < wj {
                    assert(ots[wi].item.name@ != ots[wj].item.name@);
                } else {
                    assert(ots[wj].item.name@ != ots[wi].item.name@);
                }
            }
            assert forall|i: int|
                0 <= i < self.issues@.len() implies issue_contained(
                self.runs@,
                ts,
                self.artifacts@,
                #[trigger] self.issues@[i].item,
            ) by {
                let iss = self.issues@[i].item;
                assert(issue_contained(self.runs@, old(self).tags@, self.artifacts@, iss));
                assert(tag_referenced(old(self).issues@, iss.tag_id)) by {
                    assert(old(self).issues@[i].item.tag_id == iss.tag_id);
                }
                assert(p(row_by_id(ots, iss.tag_id))) by {
                    let w = choose|w: int| 0 <= w < ots.len() && #[trigger] ots[w].id == iss.tag_id;
                }
                lemma_keep_rows_lookup(ots, p, iss.tag_id);
            }
            assert(p =~= (|t: InDatabase<TagInfo>| tag_referenced(old(self).issues@, t.id)));
        }
    }
}


impl Database {
    /// Remove the runs whose ids are listed in `doomed_runs`, together
    /// with their artifacts, their findings, and every similarity group
    /// that had a member finding in one of them. Groups die whole, by
    /// hash.
    pub fn purge_runs_cascade(&mut self, doomed_runs: &Vec<i64>)
        requires
            old(self).wf(),
        ensures
            final(self).wf(),
            final(self).runs@ == keep_rows(
                old(self).runs@,
                |r: InDatabase<Run>| !doomed_runs@.contains(r.id),
            ),
            final(self).artifacts@ == keep_rows(
                old(self).artifacts@,
                |a: InDatabase<Artifact>| !doomed_runs@.contains(a.item.run_id),
            ),
            final(self).issues@ == keep_rows(
                old(self).issues@,
                |i: InDatabase<IssueInfo>| !doomed_runs@.contains(i.item.run_id),
            ),
            final(self).similarities@ == keep_rows(
                old(self).similarities@,
                |s: InDatabase<SimilarityInfo>| !hash_hits_doomed(
                    old(self).similarities@,
                    old(self).issues@,
                    doomed_runs@,
                    s.item.similarity_hash,
                ),
            ),
            final(self).jobs == old(self).jobs,
            final(self).builds == old(self).builds,
            final(self).tags == old(self).tags,
            final(self).next_id == old(self).next_id,
    {
        let ghost dr = doomed_runs@;
        let ghost osims = old(self).similarities@;
        let ghost oissues = old(self).issues@;

        // Collect the hashes of every group that touches a doomed run.
        let mut doomed_hashes: Vec<u64> = Vec::new();
        let mut k: usize = 0;
        while k < self.similarities.len()
            invariant
                *self == *old(self),
                old(self).wf(),
                dr == doomed_runs@,
                osims == old(self).similarities@,
                oissues == old(self).issues@,
                k <= osims.len(),
                forall|j: int|
                    0 <= j < doomed_hashes@.len() ==> hash_hits_doomed(
                        osims,
                        oissues,
                        dr,
                        #[trigger] doomed_hashes@[j],
                    ),
                forall|i: int|
                    0 <= i < k && issue_in_doomed_run(
                        oissues,
                        dr,
                        #[trigger] osims[i].item.issue_id,
                    ) ==> doomed_hashes@.contains(osims[i].item.similarity_hash),
            decreases osims.len() - k,
        {
            let issue_id = self.similarities[k].item.issue_id;
            let h = self.similarities[k].item.similarity_hash;
            let doomed = match find_by_id(&self.issues, issue_id) {
                Some(w) => {
                    let rid = self.issues[w].item.run_id;
                    contains_i64(doomed_runs, rid)
                },
                None => false,
            };
            let ghost pre_dh = doomed_hashes@;
            if doomed {
                proof {
                    assert(issue_in_doomed_run(oissues, dr, issue_id));
                    assert(osims[k as int].item.similarity_hash == h);
                    assert(hash_hits_doomed(osims, oissues, dr, h));
                }
                doomed_hashes.push(h);
            }
            proof {
                assert forall|i: int|
                    0 <= i < k + 1 && issue_in_doomed_run(
                        oissues,
                        dr,
                        #[trigger] osims[i].item.issue_id,
                    ) implies doomed_hashes@.contains(osims[i].item.similarity_hash) by {
                    if i < k {
                        assert(pre_dh.contains(osims[i].item.similarity_hash));
                        let w = choose|w: int|
                            0 <= w < pre_dh.len() && pre_dh[w] == osims[i].item.similarity_hash;
                        assert(doomed_hashes@[w] == osims[i].item.similarity_hash);
                    } else {
                        assert(doomed);
                        assert(doomed_hashes@[doomed_hashes@.len() - 1] == h);
                    }
                }
            }
            k += 1;
        }
        proof {
            assert forall|h: u64| #[trigger]
                doomed_hashes@.contains(h) == hash_hits_doomed(osims, oissues, dr, h) by {
                if doomed_hashes@.contains(h) {
                    let w = choose|w: int|
                        0 <= w < doomed_hashes@.len() && doomed_hashes@[w] == h;
                    assert(hash_hits_doomed(osims, oissues, dr, doomed_hashes@[w]));
                }
                if hash_hits_doomed(osims, oissues, dr, h) {
                    let i = choose|i: int|
                        0 <= i < osims.len() && #[trigger] osims[i].item.similarity_hash == h
                            && issue_in_doomed_run(oissues, dr, osims[i].item.issue_id);
                    assert(doomed_hashes@.contains(osims[i].item.similarity_hash));
                }
            }
        }

        // Drop every group with a doomed hash.
        let ghost p_sim = |s: InDatabase<SimilarityInfo>| !doomed_hashes@.contains(
            s.item.similarity_hash,
        );
        let total_sims = self.similarities.len();
        let mut kept_sims: Vec<InDatabase<SimilarityInfo>> = Vec::new();
        let mut k: usize = 0;
        while self.similarities.len() > 0
            invariant
                old(self).wf(),
                p_sim == (|s: InDatabase<SimilarityInfo>| !doomed_hashes@.contains(
                    s.item.similarity_hash,
                )),
                osims == old(self).similarities@,
                osims.len() == total_sims,
                k <= osims.len(),
                self.similarities@ =~= osims.subrange(k as int, osims.len() as int),
                kept_sims@ == keep_rows(osims.subrange(0, k as int), p_sim),
                self.jobs == old(self).jobs,
                self.builds == old(self).builds,
                self.runs == old(self).runs,
                self.artifacts == old(self).artifacts,
                self.issues == old(self).issues,
                self.tags == old(self).tags,
                self.next_id == old(self).next_id,
            decreases self.similarities@.len(),
        {
            let row = self.similarities.remove(0);
            proof {
                assert(row == osims[k as int]);
                assert(self.similarities@ =~= osims.subrange(k as int + 1, osims.len() as int));
            }
            let keep_it = !contains_u64(&doomed_hashes, row.item.similarity_hash);
            proof {
                let pre = osims.subrange(0, k as int);
                let cur = osims.subrange(0, k as int + 1);
                assert(cur.drop_last() =~= pre);
                assert(cur.last() == osims[k as int]);
                assert(keep_it == p_sim(osims[k as int]));
            }
            if keep_it {
                kept_sims.push(row);
            }
            k += 1;
        }
        proof {
            assert(osims.subrange(0, k as int) =~= osims);
        }
        self.similarities = kept_sims;
        let ghost sims_kept = self.similarities@;

        // Drop the findings of every doomed run.
        let ghost p_iss = |i: InDatabase<IssueInfo>| !dr.contains(i.item.run_id);
        let total_issues = self.issues.len();
        let mut kept_issues: Vec<InDatabase<IssueInfo>> = Vec::new();
        let mut k: usize = 0;
        while self.issues.len() > 0
            invariant
                old(self).wf(),
                dr == doomed_runs@,
                p_iss == (|i: InDatabase<IssueInfo>| !dr.contains(i.item.run_id)),
                oissues == old(self).issues@,
                oissues.len() == total_issues,
                k <= oissues.len(),
                self.issues@ =~= oissues.subrange(k as int, oissues.len() as int),
                kept_issues@ == keep_rows(oissues.subrange(0, k as int), p_iss),
                self.similarities@ == sims_kept,
                self.jobs == old(self).jobs,
                self.builds == old(self).builds,
                self.runs == old(self).runs,
                self.artifacts == old(self).artifacts,
                self.tags == old(self).tags,
                self.next_id == old(self).next_id,
            decreases self.issues@.len(),
        {
            let row = self.issues.remove(0);
            proof {
                assert(row == oissues[k as int]);
                assert(self.issues@ =~= oissues.subrange(k as int + 1, oissues.len() as int));
            }
            let keep_it = !contains_i64(doomed_runs, row.item.run_id);
            proof {
                let pre = oissues.subrange(0, k as int);
                let cur = oissues.subrange(0, k as int + 1);
                assert(cur.drop_last() =~= pre);
                assert(cur.last() == oissues[k as int]);
                assert(keep_it == p_iss(oissues[k as int]));
            }
            if keep_it {
                kept_issues.push(row);
            }
            k += 1;
        }
        proof {
            assert(oissues.subrange(0, k as int) =~= oissues);
        }
        self.issues = kept_issues;
        let ghost issues_kept = self.issues@;

        // Drop the artifacts of every doomed run.
        let ghost oarts = old(self).artifacts@;
        let ghost p_art = |a: InDatabase<Artifact>| !dr.contains(a.item.run_id);
        let total_arts = self.artifacts.len();
        let mut kept_arts: Vec<InDatabase<Artifact>> = Vec::new();
        let mut k: usize = 0;
        while self.artifacts.len() > 0
            invariant
                old(self).wf(),
                dr == doomed_runs@,
                p_art == (|a: InDatabase<Artifact>| !dr.contains(a.item.run_id)),
                oarts == old(self).artifacts@,
                oarts.len() == total_arts,
                k <= oarts.len(),
                self.artifacts@ =~= oarts.subrange(k as int, oarts.len() as int),
                kept_arts@ == keep_rows(oarts.subrange(0, k as int), p_art),
                self.similarities@ == sims_kept,
                self.issues@ == issues_kept,
                self.jobs == old(self).jobs,
                self.builds == old(self).builds,
                self.runs == old(self).runs,
                self.tags == old(self).tags,
                self.next_id == old(self).next_id,
            decreases self.artifacts@.len(),
        {
            let row = self.artifacts.remove(0);
            proof {
                assert(row == oarts[k as int]);
                assert(self.artifacts@ =~= oarts.subrange(k as int + 1, oarts.len() as int));
            }
            let keep_it = !contains_i64(doomed_runs, row.item.run_id);
            proof {
                let pre = oarts.subrange(0, k as int);
                let cur = oarts.subrange(0, k as int + 1);
                assert(cur.drop_last() =~= pre);
                assert(cur.last() == oarts[k as int]);
                assert(keep_it == p_art(oarts[k as int]));
            }
            if keep_it {
                kept_arts.push(row);
            }
            k += 1;
        }
        proof {
            assert(oarts.subrange(0, k as int) =~= oarts);
        }
        self.artifacts = kept_arts;
        let ghost arts_kept = self.artifacts@;

        // Drop the doomed runs themselves.
        let ghost oruns = old(self).runs@;
        let ghost p_run = |r: InDatabase<Run>| !dr.contains(r.id);
        let total_runs = self.runs.len();
        let mut kept_runs: Vec<InDatabase<Run>> = Vec::new();
        let mut k: usize = 0;
        while self.runs.len() > 0
            invariant
                old(self).wf(),
                dr == doomed_runs@,
                p_run == (|r: InDatabase<Run>| !dr.contains(r.id)),
                oruns == old(self).runs@,
                oruns.len() == total_runs,
                k <= oruns.len(),
                self.runs@ =~= oruns.subrange(k as int, oruns.len() as int),
                kept_runs@ == keep_rows(oruns.subrange(0, k as int), p_run),
                self.similarities@ == sims_kept,
                self.issues@ == issues_kept,
                self.artifacts@ == arts_kept,
                self.jobs == old(self).jobs,
                self.builds == old(self).builds,
                self.tags == old(self).tags,
                self.next_id == old(self).next_id,
            decreases self.runs@.len(),
        {
            let row = self.runs.remove(0);
            proof {
                assert(row == oruns[k as int]);
                assert(self.runs@ =~= oruns.subrange(k as int + 1, oruns.len() as int));
            }
            let keep_it = !contains_i64(doomed_runs, row.id);
            proof {
                let pre = oruns.subrange(0, k as int);
                let cur = oruns.subrange(0, k as int + 1);
                assert(cur.drop_last() =~= pre);
                assert(cur.last() == oruns[k as int]);
                assert(keep_it == p_run(oruns[k as int]));
            }
            if keep_it {
                kept_runs.push(row);
            }
            k += 1;
        }
        proof {
            assert(oruns.subrange(0, k as int) =~= oruns);
        }
        self.runs = kept_runs;

        proof {
            let nid = old(self).next_id;
            lemma_keep_rows(osims, p_sim, nid);
            lemma_keep_rows(oissues, p_iss, nid);
            lemma_keep_rows(oarts, p_art, nid);
            lemma_keep_rows(oruns, p_run, nid);
            let runs2 = self.runs@;
            let arts2 = self.artifacts@;
            let issues2 = self.issues@;
            let sims2 = self.similarities@;

            // Kept run urls stay pairwise distinct.
            assert forall|i: int, j: int| 0 <= i < j < runs2.len() implies #[trigger] runs2[i].item.url@
                != #[trigger] runs2[j].item.url@ by {
                assert(oruns.contains(runs2[i]) && oruns.contains(runs2[j]));
                let wi = choose|w: int| 0 <= w < oruns.len() && oruns[w] == runs2[i];
                let wj = choose|w: int| 0 <= w < oruns.len() && oruns[w] == runs2[j];
                assert(wi != wj) by {
                    if wi == wj {
                        assert(runs2[i].id == runs2[j].id);
                        assert(ids_unique(runs2));
                    }
                }
                if wi < wj {
                    assert(oruns[wi].item.url@ != oruns[wj].item.url@);
                } else {
                    assert(oruns[wj].item.url@ != oruns[wi].item.url@);
                }
            }

            // Kept runs still sit under existing builds.
            assert forall|i: int| 0 <= i < runs2.len() implies has_id(
                self.builds@,
                #[trigger] runs2[i].item.build_id,
            ) by {
                assert(oruns.contains(runs2[i]));
                let w = choose|w: int| 0 <= w < oruns.len() && oruns[w] == runs2[i];
                assert(has_id(old(self).builds@, oruns[w].item.build_id));
            }

            // Kept artifacts still sit under kept runs.
            assert forall|i: int| 0 <= i < arts2.len() implies has_id(
                runs2,
                #[trigger] arts2[i].item.run_id,
            ) by {
                assert(oarts.contains(arts2[i]) && p_art(arts2[i]));
                let w = choose|w: int| 0 <= w < oarts.len() && oarts[w] == arts2[i];
                let rid = arts2[i].item.run_id;
                assert(has_id(oruns, rid));
                assert(!dr.contains(rid));
                assert(p_run(row_by_id(oruns, rid))) by {
                    let v = choose|v: int| 0 <= v < oruns.len() && #[trigger] oruns[v].id == rid;
                }
                lemma_keep_rows_lookup(oruns, p_run, rid);
            }

            // Kept findings stay contained: their run was kept with the same
            // fields, their tag is untouched, and their artifact was kept.
            assert forall|i: int| 0 <= i < issues2.len() implies issue_contained(
                runs2,
                self.tags@,
                arts2,
                #[trigger] issues2[i].item,
            ) by {
                assert(oissues.contains(issues2[i]) && p_iss(issues2[i]));
                let iss = issues2[i].item;
                let w = choose|w: int| 0 <= w < oissues.len() && oissues[w] == issues2[i];
                assert(issue_contained(oruns, self.tags@, oarts, oissues[w].item));
                assert(!dr.contains(iss.run_id));
                assert(p_run(row_by_id(oruns, iss.run_id))) by {
                    let v = choose|v: int|
                        0 <= v < oruns.len() && #[trigger] oruns[v].id == iss.run_id;
                }
                lemma_keep_rows_lookup(oruns, p_run, iss.run_id);
                if iss.artifact_id is Some {
                    let aid = iss.artifact_id->0;
                    assert(has_id(oarts, aid));
                    assert(row_by_id(oarts, aid).item.run_id == iss.run_id);
                    assert(p_art(row_by_id(oarts, aid)));
                    lemma_keep_rows_lookup(oarts, p_art, aid);
                }
            }

            // Kept similarity rows reference kept findings.
            assert forall|i: int| 0 <= i < sims2.len() implies has_id(
                issues2,
                #[trigger] sims2[i].item.issue_id,
            ) by {
                assert(osims.contains(sims2[i]) && p_sim(sims2[i]));
                let w = choose|w: int| 0 <= w < osims.len() && osims[w] == sims2[i];
                let iid = sims2[i].item.issue_id;
                assert(has_id(oissues, iid));
                assert(!issue_in_doomed_run(oissues, dr, iid)) by {
                    if issue_in_doomed_run(oissues, dr, iid) {
                        assert(osims[w].item.similarity_hash == sims2[i].item.similarity_hash);
                        assert(hash_hits_doomed(osims, oissues, dr, sims2[i].item.similarity_hash));
                        assert(doomed_hashes@.contains(sims2[i].item.similarity_hash));
                    }
                }
                assert(p_iss(row_by_id(oissues, iid)));
                lemma_keep_rows_lookup(oissues, p_iss, iid);
            }

            // Groups died whole, so every kept row still has its partner.
            assert forall|i: int| 0 <= i < sims2.len() implies #[trigger] sim_has_partner(
                sims2,
                i,
            ) by {
                assert(osims.contains(sims2[i]) && p_sim(sims2[i]));
                let w = choose|w: int| 0 <= w < osims.len() && osims[w] == sims2[i];
                assert(sim_has_partner(osims, w));
                let u = choose|u: int|
                    0 <= u < osims.len() && #[trigger] osims[u].item.similarity_hash
                        == osims[w].item.similarity_hash && osims[u].item.issue_id
                        != osims[w].item.issue_id;
                assert(p_sim(osims[u]));
                assert(keep_rows(osims, p_sim).contains(osims[u]));
                let v = choose|v: int| 0 <= v < sims2.len() && sims2[v] == osims[u];
                assert(sims2[v].item.similarity_hash == sims2[i].item.similarity_hash
                    && sims2[v].item.issue_id != sims2[i].item.issue_id);
            }

            // The collected hashes realize the doomed-hash predicate.
            assert(p_sim =~= (|s: InDatabase<SimilarityInfo>| !hash_hits_doomed(
                old(self).similarities@,
                old(self).issues@,
                doomed_runs@,
                s.item.similarity_hash,
            )));
        }
    }
}


/// Whether `name` is one of the names in `names`.
pub open spec fn name_in(names: Seq<Vec<u8>>, name: Seq<u8>) -> bool {
    exists|k: int| 0 <= k < names.len() && #[trigger] names[k]@ == name
}

/// Whether the job owning the build is named in the blocklist.
pub open spec fn build_row_blocked(
    jobs: Seq<InDatabase<Job>>,
    names: Seq<Vec<u8>>,
    b: JobBuild,
) -> bool {
    has_id(jobs, b.job_id) && name_in(names, row_by_id(jobs, b.job_id).item.name@)
}

/// Whether the run sits under a blocklisted job.
pub open spec fn run_row_blocked(
    jobs: Seq<InDatabase<Job>>,
    builds: Seq<InDatabase<JobBuild>>,
    names: Seq<Vec<u8>>,
    r: Run,
) -> bool {
    has_id(builds, r.build_id) && build_row_blocked(
        jobs,
        names,
        row_by_id(builds, r.build_id).item,
    )
}

/// Whether the run with id `id` sits under a blocklisted job.
pub open spec fn run_id_blocked(
    jobs: Seq<InDatabase<Job>>,
    builds: Seq<InDatabase<JobBuild>>,
    runs: Seq<InDatabase<Run>>,
    names: Seq<Vec<u8>>,
    id: i64,
) -> bool {
    has_id(runs, id) && run_row_blocked(jobs, builds, names, row_by_id(runs, id).item)
}

/// Whether the similarity hash `h` has a member finding in a run that
/// `bad_run` condemns.
pub open spec fn hash_touches(
    sims: Seq<InDatabase<SimilarityInfo>>,
    issues: Seq<InDatabase<IssueInfo>>,
    bad_run: spec_fn(i64) -> bool,
    h: u64,
) -> bool {
    exists|i: int|
        0 <= i < sims.len() && #[trigger] sims[i].item.similarity_hash == h && has_id(
            issues,
            sims[i].item.issue_id,
        ) && bad_run(row_by_id(issues, sims[i].item.issue_id).item.run_id)
}

/// A doomed-run id list that realizes `bad` makes `hash_hits_doomed`
/// coincide with `hash_touches`.
pub proof fn lemma_hash_hits_equiv(
    sims: Seq<InDatabase<SimilarityInfo>>,
    issues: Seq<InDatabase<IssueInfo>>,
    dr: Seq<i64>,
    bad: spec_fn(i64) -> bool,
)
    requires
        forall|id: i64| dr.contains(id) == #[trigger] bad(id),
    ensures
        forall|h: u64| #[trigger]
            hash_touches(sims, issues, bad, h) == hash_hits_doomed(sims, issues, dr, h),
{
    assert forall|h: u64| #[trigger]
        hash_touches(sims, issues, bad, h) == hash_hits_doomed(sims, issues, dr, h) by {
        if hash_touches(sims, issues, bad, h) {
            let i = choose|i: int|
                0 <= i < sims.len() && #[trigger] sims[i].item.similarity_hash == h && has_id(
                    issues,
                    sims[i].item.issue_id,
                ) && bad(row_by_id(issues, sims[i].item.issue_id).item.run_id);
            assert(issue_in_doomed_run(issues, dr, sims[i].item.issue_id));
            assert(hash_hits_doomed(sims, issues, dr, h));
        }
        if hash_hits_doomed(sims, issues, dr, h) {
            let i = choose|i: int|
                0 <= i < sims.len() && #[trigger] sims[i].item.similarity_hash == h
                    && issue_in_doomed_run(issues, dr, sims[i].item.issue_id);
            assert(bad(row_by_id(issues, sims[i].item.issue_id).item.run_id));
            assert(hash_touches(sims, issues, bad, h));
        }
    }
}

/// Whether `name` is one of the names in the list.
pub fn name_in_list(names: &Vec<Vec<u8>>, name: &[u8]) -> (r: bool)
    ensures
        r == name_in(names@, name@),
{
    let mut k: usize = 0;
    while k < names.len()
        invariant
            k <= names@.len(),
            forall|i: int| 0 <= i < k ==> #[trigger] names@[i]@ != name@,
        decreases names@.len() - k,
    {
        if bytes_eq(names[k].as_slice(), name) {
            return true;
        }
        k += 1;
    }
    false
}

impl Database {
    /// Purge every blocklisted job with its whole subtree: builds, runs,
    /// artifacts, findings, and the similarity groups that touched them.
    /// Returns how many jobs were removed.
    #[verifier::rlimit(60)]
    #[verifier::spinoff_prover]
    pub fn purge_blocklisted_jobs(&mut self, names: &Vec<Vec<u8>>) -> (removed: usize)
        requires
            old(self).wf(),
        ensures
            final(self).wf(),
            final(self).jobs@ == keep_rows(
                old(self).jobs@,
                |j: InDatabase<Job>| !name_in(names@, j.item.name@),
            ),
            final(self).builds@ == keep_rows(
                old(self).builds@,
                |b: InDatabase<JobBuild>| !build_row_blocked(old(self).jobs@, names@, b.item),
            ),
            final(self).runs@ == keep_rows(
                old(self).runs@,
                |r: InDatabase<Run>| !run_row_blocked(
                    old(self).jobs@,
                    old(self).builds@,
                    names@,
                    r.item,
                ),
            ),
            final(self).artifacts@ == keep_rows(
                old(self).artifacts@,
                |a: InDatabase<Artifact>| !run_id_blocked(
                    old(self).jobs@,
                    old(self).builds@,
                    old(self).runs@,
                    names@,
                    a.item.run_id,
                ),
            ),
            final(self).issues@ == keep_rows(
                old(self).issues@,
                |i: InDatabase<IssueInfo>| !run_id_blocked(
                    old(self).jobs@,
                    old(self).builds@,
                    old(self).runs@,
                    names@,
                    i.item.run_id,
                ),
            ),
            final(self).similarities@ == keep_rows(
                old(self).similarities@,
                |s: InDatabase<SimilarityInfo>| !hash_touches(
                    old(self).similarities@,
                    old(self).issues@,
                    |id: i64| run_id_blocked(
                        old(self).jobs@,
                        old(self).builds@,
                        old(self).runs@,
                        names@,
                        id,
                    ),
                    s.item.similarity_hash,
                ),
            ),
            final(self).tags == old(self).tags,
            final(self).next_id == old(self).next_id,
            removed == old(self).jobs@.len() - final(self).jobs@.len(),
    {
        let ghost ojobs = old(self).jobs@;
        let ghost obuilds = old(self).builds@;
        let ghost oruns = old(self).runs@;

        // Which jobs are blocked.
        let mut doomed_jobs: Vec<i64> = Vec::new();
        let mut k: usize = 0;
        while k < self.jobs.len()
            invariant
                *self == *old(self),
                old(self).wf(),
                k <= ojobs.len(),
                ojobs == old(self).jobs@,
                forall|j: int|
                    0 <= j < doomed_jobs@.len() ==> has_id(ojobs, #[trigger] doomed_jobs@[j])
                        && name_in(names@, row_by_id(ojobs, doomed_jobs@[j]).item.name@),
                forall|i: int|
                    0 <= i < k && name_in(names@, #[trigger] ojobs[i].item.name@)
                        ==> doomed_jobs@.contains(ojobs[i].id),
            decreases ojobs.len() - k,
        {
            let blocked = name_in_list(names, self.jobs[k].item.name.as_slice());
            let ghost pre = doomed_jobs@;
            if blocked {
                let id = self.jobs[k].id;
                proof {
                    assert(ojobs[k as int].id == id);
                    assert(has_id(ojobs, id));
                    let w = choose|w: int| 0 <= w < ojobs.len() && #[trigger] ojobs[w].id == id;
                    assert(w == k as int) by {
                        if w != k as int {
                            assert(ojobs[w].id != ojobs[k as int].id);
                        }
                    }
                    assert(row_by_id(ojobs, id) == ojobs[k as int]);
                }
                doomed_jobs.push(id);
            }
            proof {
                assert forall|i: int|
                    0 <= i < k + 1 && name_in(names@, #[trigger] ojobs[i].item.name@)
                        implies doomed_jobs@.contains(ojobs[i].id) by {
                    if i < k {
                        assert(pre.contains(ojobs[i].id));
                        let w = choose|w: int| 0 <= w < pre.len() && pre[w] == ojobs[i].id;
                        assert(doomed_jobs@[w] == ojobs[i].id);
                    } else {
                        assert(doomed_jobs@[doomed_jobs@.len() - 1] == ojobs[i].id);
                    }
                }
            }
            k += 1;
        }
        proof {
            assert forall|id: i64| #[trigger]
                doomed_jobs@.contains(id) == (has_id(ojobs, id) && name_in(
                names@,
                row_by_id(ojobs, id).item.name@,
            )) by {
                if doomed_jobs@.contains(id) {
                    let w = choose|w: int| 0 <= w < doomed_jobs@.len() && doomed_jobs@[w] == id;
                    assert(has_id(ojobs, doomed_jobs@[w]) && name_in(
                        names@,
                        row_by_id(ojobs, doomed_jobs@[w]).item.name@,
                    ));
                }
                if has_id(ojobs, id) && name_in(names@, row_by_id(ojobs, id).item.name@) {
                    let w = choose|w: int| 0 <= w < ojobs.len() && #[trigger] ojobs[w].id == id;
                    assert(row_by_id(ojobs, id) == ojobs[w]);
                    assert(doomed_jobs@.contains(ojobs[w].id));
                }
            }
        }

        // Which builds sit under a blocked job.
        let mut doomed_builds: Vec<i64> = Vec::new();
        let mut k: usize = 0;
        while k < self.builds.len()
            invariant
                *self == *old(self),
                old(self).wf(),
                k <= obuilds.len(),
                ojobs == old(self).jobs@,
                obuilds == old(self).builds@,
                forall|id: i64| #[trigger]
                    doomed_jobs@.contains(id) == (has_id(ojobs, id) && name_in(
                        names@,
                        row_by_id(ojobs, id).item.name@,
                    )),
                forall|j: int|
                    0 <= j < doomed_builds@.len() ==> has_id(obuilds, #[trigger] doomed_builds@[j])
                        && build_row_blocked(
                        ojobs,
                        names@,
                        row_by_id(obuilds, doomed_builds@[j]).item,
                    ),
                forall|i: int|
                    0 <= i < k && build_row_blocked(ojobs, names@, #[trigger] obuilds[i].item)
                        ==> doomed_builds@.contains(obuilds[i].id),
            decreases obuilds.len() - k,
        {
            let blocked = contains_i64(&doomed_jobs, self.builds[k].item.job_id);
            let ghost pre = doomed_builds@;
            proof {
                if blocked {
                    assert(build_row_blocked(ojobs, names@, obuilds[k as int].item));
                } else {
                    if build_row_blocked(ojobs, names@, obuilds[k as int].item) {
                        assert(doomed_jobs@.contains(obuilds[k as int].item.job_id));
                    }
                }
            }
            if blocked {
                let id = self.builds[k].id;
                proof {
                    assert(obuilds[k as int].id == id);
                    assert(has_id(obuilds, id));
                    let w = choose|w: int| 0 <= w < obuilds.len() && #[trigger] obuilds[w].id == id;
                    assert(w == k as int) by {
                        if w != k as int {
                            assert(obuilds[w].id != obuilds[k as int].id);
                        }
                    }
                    assert(row_by_id(obuilds, id) == obuilds[k as int]);
                }
                doomed_builds.push(id);
            }
            proof {
                assert forall|i: int|
                    0 <= i < k + 1 && build_row_blocked(ojobs, names@, #[trigger] obuilds[i].item)
                        implies doomed_builds@.contains(obuilds[i].id) by {
                    if i < k {
                        assert(pre.contains(obuilds[i].id));
                        let w = choose|w: int| 0 <= w < pre.len() && pre[w] == obuilds[i].id;
                        assert(doomed_builds@[w] == obuilds[i].id);
                    } else {
                        assert(doomed_builds@[doomed_builds@.len() - 1] == obuilds[i].id);
                    }
                }
            }
            k += 1;
        }
        proof {
            assert forall|id: i64| #[trigger]
                doomed_builds@.contains(id) == (has_id(obuilds, id) && build_row_blocked(
                ojobs,
                names@,
                row_by_id(obuilds, id).item,
            )) by {
                if doomed_builds@.contains(id) {
                    let w = choose|w: int| 0 <= w < doomed_builds@.len() && doomed_builds@[w] == id;
                    assert(has_id(obuilds, doomed_builds@[w]) && build_row_blocked(
                        ojobs,
                        names@,
                        row_by_id(obuilds, doomed_builds@[w]).item,
                    ));
                }
                if has_id(obuilds, id) && build_row_blocked(ojobs, names@, row_by_id(obuilds, id).item) {
                    let w = choose|w: int| 0 <= w < obuilds.len() && #[trigger] obuilds[w].id == id;
                    assert(row_by_id(obuilds, id) == obuilds[w]);
                    assert(doomed_builds@.contains(obuilds[w].id));
                }
            }
        }

        // Which runs sit under a doomed build.
        let mut doomed_runs: Vec<i64> = Vec::new();
        let mut k: usize = 0;
        while k < self.runs.len()
            invariant
                *self == *old(self),
                old(self).wf(),
                k <= oruns.len(),
                ojobs == old(self).jobs@,
                obuilds == old(self).builds@,
                oruns == old(self).runs@,
                forall|id: i64| #[trigger]
                    doomed_builds@.contains(id) == (has_id(obuilds, id) && build_row_blocked(
                        ojobs,
                        names@,
                        row_by_id(obuilds, id).item,
                    )),
                forall|j: int|
                    0 <= j < doomed_runs@.len() ==> has_id(oruns, #[trigger] doomed_runs@[j])
                        && run_row_blocked(
                        ojobs,
                        obuilds,
                        names@,
                        row_by_id(oruns, doomed_runs@[j]).item,
                    ),
                forall|i: int|
                    0 <= i < k && run_row_blocked(ojobs, obuilds, names@, #[trigger] oruns[i].item)
                        ==> doomed_runs@.contains(oruns[i].id),
            decreases oruns.len() - k,
        {
            let blocked = contains_i64(&doomed_builds, self.runs[k].item.build_id);
            let ghost pre = doomed_runs@;
            proof {
                if blocked {
                    assert(run_row_blocked(ojobs, obuilds, names@, oruns[k as int].item));
                } else {
                    if run_row_blocked(ojobs, obuilds, names@, oruns[k as int].item) {
                        assert(doomed_builds@.contains(oruns[k as int].item.build_id));
                    }
                }
            }
            if blocked {
                let id = self.runs[k].id;
                proof {
                    assert(oruns[k as int].id == id);
                    assert(has_id(oruns, id));
                    let w = choose|w: int| 0 <= w < oruns.len() && #[trigger] oruns[w].id == id;
                    assert(w == k as int) by {
                        if w != k as int {
                            assert(oruns[w].id != oruns[k as int].id);
                        }
                    }
                    assert(row_by_id(oruns, id) == oruns[k as int]);
                }
                doomed_runs.push(id);
            }
            proof {
                assert forall|i: int|
                    0 <= i < k + 1 && run_row_blocked(
                        ojobs,
                        obuilds,
                        names@,
                        #[trigger] oruns[i].item,
                    ) implies doomed_runs@.contains(oruns[i].id) by {
                    if i < k {
                        assert(pre.contains(oruns[i].id));
                        let w = choose|w: int| 0 <= w < pre.len() && pre[w] == oruns[i].id;
                        assert(doomed_runs@[w] == oruns[i].id);
                    } else {
                        assert(doomed_runs@[doomed_runs@.len() - 1] == oruns[i].id);
                    }
                }
            }
            k += 1;
        }
        let ghost bad = |id: i64| run_id_blocked(ojobs, obuilds, oruns, names@, id);
        proof {
            assert forall|id: i64| doomed_runs@.contains(id) == #[trigger] bad(id) by {
                if doomed_runs@.contains(id) {
                    let w = choose|w: int| 0 <= w < doomed_runs@.len() && doomed_runs@[w] == id;
                    assert(has_id(oruns, doomed_runs@[w]) && run_row_blocked(
                        ojobs,
                        obuilds,
                        names@,
                        row_by_id(oruns, doomed_runs@[w]).item,
                    ));
                }
                if bad(id) {
                    let w = choose|w: int| 0 <= w < oruns.len() && #[trigger] oruns[w].id == id;
                    assert(row_by_id(oruns, id) == oruns[w]);
                    assert(run_row_blocked(ojobs, obuilds, names@, oruns[w].item));
                    assert(doomed_runs@.contains(oruns[w].id));
                }
            }
        }

        // Cascade through runs, artifacts, findings and similarity groups.
        let ghost osims = old(self).similarities@;
        let ghost oissues = old(self).issues@;
        self.purge_runs_cascade(&doomed_runs);

        // Now drop the doomed builds themselves.
        let ghost p_build = |b: InDatabase<JobBuild>| !doomed_builds@.contains(b.id);
        let ghost mid = *self;
        let total_builds = self.builds.len();
        let mut kept_builds: Vec<InDatabase<JobBuild>> = Vec::new();
        let mut k: usize = 0;
        while self.builds.len() > 0
            invariant
                mid.wf(),
                p_build == (|b: InDatabase<JobBuild>| !doomed_builds@.contains(b.id)),
                obuilds == mid.builds@,
                obuilds.len() == total_builds,
                k <= obuilds.len(),
                self.builds@ =~= obuilds.subrange(k as int, obuilds.len() as int),
                kept_builds@ == keep_rows(obuilds.subrange(0, k as int), p_build),
                self.jobs == mid.jobs,
                self.runs == mid.runs,
                self.artifacts == mid.artifacts,
                self.issues == mid.issues,
                self.tags == mid.tags,
                self.similarities == mid.similarities,
                self.next_id == mid.next_id,
            decreases self.builds@.len(),
        {
            let row = self.builds.remove(0);
            proof {
                assert(row == obuilds[k as int]);
                assert(self.builds@ =~= obuilds.subrange(k as int + 1, obuilds.len() as int));
            }
            let keep_it = !contains_i64(&doomed_builds, row.id);
            proof {
                let pre = obuilds.subrange(0, k as int);
                let cur = obuilds.subrange(0, k as int + 1);
                assert(cur.drop_last() =~= pre);
                assert(cur.last() == obuilds[k as int]);
                assert(keep_it == p_build(obuilds[k as int]));
            }
            if keep_it {
                kept_builds.push(row);
            }
            k += 1;
        }
        proof {
            assert(obuilds.subrange(0, k as int) =~= obuilds);
        }
        self.builds = kept_builds;

        // And the blocked jobs.
        let ghost p_job = |j: InDatabase<Job>| !name_in(names@, j.item.name@);
        let total_jobs = self.jobs.len();
        let mut kept_jobs: Vec<InDatabase<Job>> = Vec::new();
        let mut k: usize = 0;
        while self.jobs.len() > 0
            invariant
                mid.wf(),
                p_job == (|j: InDatabase<Job>| !name_in(names@, j.item.name@)),
                ojobs == mid.jobs@,
                ojobs.len() == total_jobs,
                k <= ojobs.len(),
                self.jobs@ =~= ojobs.subrange(k as int, ojobs.len() as int),
                kept_jobs@ == keep_rows(ojobs.subrange(0, k as int), p_job),
                self.builds@ == keep_rows(obuilds, p_build),
                self.runs == mid.runs,
                self.artifacts == mid.artifacts,
                self.issues == mid.issues,
                self.tags == mid.tags,
                self.similarities == mid.similarities,
                self.next_id == mid.next_id,
            decreases self.jobs@.len(),
        {
            let row = self.jobs.remove(0);
            proof {
                assert(row == ojobs[k as int]);
                assert(self.jobs@ =~= ojobs.subrange(k as int + 1, ojobs.len() as int));
            }
            let keep_it = !name_in_list(names, row.item.name.as_slice());
            proof {
                let pre = ojobs.subrange(0, k as int);
                let cur = ojobs.subrange(0, k as int + 1);
                assert(cur.drop_last() =~= pre);
                assert(cur.last() == ojobs[k as int]);
                assert(keep_it == p_job(ojobs[k as int]));
            }
            if keep_it {
                kept_jobs.push(row);
            }
            k += 1;
        }
        proof {
            assert(ojobs.subrange(0, k as int) =~= ojobs);
        }
        self.jobs = kept_jobs;

        proof {
            let nid = old(self).next_id;
            lemma_keep_rows(ojobs, p_job, nid);
            lemma_keep_rows(obuilds, p_build, nid);
            let jobs2 = self.jobs@;
            let builds2 = self.builds@;

            assert forall|i: int, j: int| 0 <= i < j < jobs2.len() implies #[trigger] jobs2[i].item.name@
                != #[trigger] jobs2[j].item.name@ by {
                assert(ojobs.contains(jobs2[i]) && ojobs.contains(jobs2[j]));
                let wi = choose|w: int| 0 <= w < ojobs.len() && ojobs[w] == jobs2[i];
                let wj = choose|w: int| 0 <= w < ojobs.len() && ojobs[w] == jobs2[j];
                assert(wi != wj) by {
                    if wi == wj {
                        assert(jobs2[i].id == jobs2[j].id);
                        assert(ids_unique(jobs2));
                    }
                }
                if wi < wj {
                    assert(ojobs[wi].item.name@ != ojobs[wj].item.name@);
                } else {
                    assert(ojobs[wj].item.name@ != ojobs[wi].item.name@);
                }
            }

            assert forall|i: int, j: int| 0 <= i < j < builds2.len() implies #[trigger] builds2[i].item.url@
                != #[trigger] builds2[j].item.url@ by {
                assert(obuilds.contains(builds2[i]) && obuilds.contains(builds2[j]));
                let wi = choose|w: int| 0 <= w < obuilds.len() && obuilds[w] == builds2[i];
                let wj = choose|w: int| 0 <= w < obuilds.len() && obuilds[w] == builds2[j];
                assert(wi != wj) by {
                    if wi == wj {
                        assert(builds2[i].id == builds2[j].id);
                        assert(ids_unique(builds2));
                    }
                }
                if wi < wj {
                    assert(obuilds[wi].item.url@ != obuilds[wj].item.url@);
                } else {
                    assert(obuilds[wj].item.url@ != obuilds[wi].item.url@);
                }
            }

            // Kept builds still reference kept jobs.
            assert forall|i: int| 0 <= i < builds2.len() implies has_id(
                jobs2,
                #[trigger] builds2[i].item.job_id,
            ) by {
                assert(obuilds.contains(builds2[i]) && p_build(builds2[i]));
                let jid = builds2[i].item.job_id;
                assert(has_id(ojobs, jid));
                assert(!doomed_builds@.contains(builds2[i].id));
                assert(!build_row_blocked(ojobs, names@, builds2[i].item));
                assert(p_job(row_by_id(ojobs, jid)));
                lemma_keep_rows_lookup(ojobs, p_job, jid);
            }

            // Kept runs still reference kept builds.
            assert forall|i: int| 0 <= i < self.runs@.len() implies has_id(
                builds2,
                #[trigger] self.runs@[i].item.build_id,
            ) by {
                let p_run = |r: InDatabase<Run>| !doomed_runs@.contains(r.id);
                lemma_keep_rows(oruns, p_run, nid);
                assert(self.runs@ == keep_rows(oruns, p_run));
                assert(oruns.contains(self.runs@[i]) && p_run(self.runs@[i]));
                let w = choose|w: int| 0 <= w < oruns.len() && oruns[w] == self.runs@[i];
                let bid = self.runs@[i].item.build_id;
                assert(has_id(obuilds, bid));
                assert(row_by_id(oruns, self.runs@[i].id) == oruns[w]) by {
                    let v = choose|v: int|
                        0 <= v < oruns.len() && #[trigger] oruns[v].id == self.runs@[i].id;
                    assert(v == w) by {
                        if v != w {
                            assert(oruns[v].id != oruns[w].id);
                        }
                    }
                }
                assert(!run_row_blocked(ojobs, obuilds, names@, self.runs@[i].item)) by {
                    if run_row_blocked(ojobs, obuilds, names@, self.runs@[i].item) {
                        assert(bad(self.runs@[i].id));
                        assert(doomed_runs@.contains(self.runs@[i].id));
                    }
                }
                assert(p_build(row_by_id(obuilds, bid))) by {
                    let v = choose|v: int| 0 <= v < obuilds.len() && #[trigger] obuilds[v].id == bid;
                    assert(row_by_id(obuilds, bid) == obuilds[v]);
                    if doomed_builds@.contains(obuilds[v].id) {
                        assert(build_row_blocked(ojobs, names@, row_by_id(obuilds, obuilds[v].id).item));
                    }
                }
                lemma_keep_rows_lookup(obuilds, p_build, bid);
            }

            // Rewrite the kept tables into the advertised predicates: the
            // doomed id lists realize them on every row.
            let p_run = |r: InDatabase<Run>| !doomed_runs@.contains(r.id);
            let q_run = |r: InDatabase<Run>| !run_row_blocked(
                old(self).jobs@,
                old(self).builds@,
                names@,
                r.item,
            );
            assert forall|j: int| 0 <= j < oruns.len() implies p_run(#[trigger] oruns[j]) == q_run(
                oruns[j],
            ) by {
                assert(row_by_id(oruns, oruns[j].id) == oruns[j]) by {
                    assert(oruns[j].id == oruns[j].id);
                    assert(has_id(oruns, oruns[j].id));
                    let v = choose|v: int|
                        0 <= v < oruns.len() && #[trigger] oruns[v].id == oruns[j].id;
                    assert(v == j) by {
                        if v != j {
                            assert(oruns[v].id != oruns[j].id);
                        }
                    }
                }
                assert(bad(oruns[j].id) == run_row_blocked(ojobs, obuilds, names@, oruns[j].item));
                assert(doomed_runs@.contains(oruns[j].id) == bad(oruns[j].id));
            }
            lemma_keep_rows_congruence(oruns, p_run, q_run);

            let q_build = |b: InDatabase<JobBuild>| !build_row_blocked(
                old(self).jobs@,
                names@,
                b.item,
            );
            assert forall|j: int| 0 <= j < obuilds.len() implies p_build(#[trigger] obuilds[j])
                == q_build(obuilds[j]) by {
                assert(row_by_id(obuilds, obuilds[j].id) == obuilds[j]) by {
                    assert(has_id(obuilds, obuilds[j].id));
                    let v = choose|v: int|
                        0 <= v < obuilds.len() && #[trigger] obuilds[v].id == obuilds[j].id;
                    assert(v == j) by {
                        if v != j {
                            assert(obuilds[v].id != obuilds[j].id);
                        }
                    }
                }
            }
            lemma_keep_rows_congruence(obuilds, p_build, q_build);

            let p_art = |a: InDatabase<Artifact>| !doomed_runs@.contains(a.item.run_id);
            let q_art = |a: InDatabase<Artifact>| !run_id_blocked(
                old(self).jobs@,
                old(self).builds@,
                old(self).runs@,
                names@,
                a.item.run_id,
            );
            assert(p_art =~= q_art) by {
                assert forall|a: InDatabase<Artifact>| #[trigger] p_art(a) == q_art(a) by {
                    assert(doomed_runs@.contains(a.item.run_id) == bad(a.item.run_id));
                }
            }

            let p_iss = |i: InDatabase<IssueInfo>| !doomed_runs@.contains(i.item.run_id);
            let q_iss = |i: InDatabase<IssueInfo>| !run_id_blocked(
                old(self).jobs@,
                old(self).builds@,
                old(self).runs@,
                names@,
                i.item.run_id,
            );
            assert(p_iss =~= q_iss) by {
                assert forall|i: InDatabase<IssueInfo>| #[trigger] p_iss(i) == q_iss(i) by {
                    assert(doomed_runs@.contains(i.item.run_id) == bad(i.item.run_id));
                }
            }

            lemma_hash_hits_equiv(osims, oissues, doomed_runs@, bad);
            let p_sim = |s2: InDatabase<SimilarityInfo>| !hash_hits_doomed(
                old(self).similarities@,
                old(self).issues@,
                doomed_runs@,
                s2.item.similarity_hash,
            );
            let q_sim = |s2: InDatabase<SimilarityInfo>| !hash_touches(
                old(self).similarities@,
                old(self).issues@,
                |id: i64| run_id_blocked(
                    old(self).jobs@,
                    old(self).builds@,
                    old(self).runs@,
                    names@,
                    id,
                ),
                s2.item.similarity_hash,
            );
            assert(p_sim =~= q_sim) by {
                assert forall|s2: InDatabase<SimilarityInfo>| #[trigger] p_sim(s2) == q_sim(
                    s2,
                ) by {
                    let inner = |id: i64| run_id_blocked(
                        old(self).jobs@,
                        old(self).builds@,
                        old(self).runs@,
                        names@,
                        id,
                    );
                    assert(inner =~= bad);
                    assert(hash_touches(osims, oissues, bad, s2.item.similarity_hash)
                        == hash_hits_doomed(osims, oissues, doomed_runs@, s2.item.similarity_hash));
                }
            }
        }
        let n_jobs = self.jobs.len();
        proof {
            lemma_keep_rows(ojobs, p_job, old(self).next_id);
        }
        total_jobs - n_jobs
    }
}


/// Whether the build is older than its job's most recent build number.
pub open spec fn build_superseded(jobs: Seq<InDatabase<Job>>, b: JobBuild) -> bool {
    &&& has_id(jobs, b.job_id)
    &&& row_by_id(jobs, b.job_id).item.last_build is Some
    &&& b.number < row_by_id(jobs, b.job_id).item.last_build->0
}

/// Whether the run sits under a superseded build.
pub open spec fn run_row_superseded(
    jobs: Seq<InDatabase<Job>>,
    builds: Seq<InDatabase<JobBuild>>,
    r: Run,
) -> bool {
    has_id(builds, r.build_id) && build_superseded(jobs, row_by_id(builds, r.build_id).item)
}

/// Whether the run with id `id` sits under a superseded build.
pub open spec fn run_id_superseded(
    jobs: Seq<InDatabase<Job>>,
    builds: Seq<InDatabase<JobBuild>>,
    runs: Seq<InDatabase<Run>>,
    id: i64,
) -> bool {
    has_id(runs, id) && run_row_superseded(jobs, builds, row_by_id(runs, id).item)
}

impl Database {
    /// Purge every build older than its job's most recent build number,
    /// with its runs, artifacts, findings, and the similarity groups that
    /// touched them.
    #[verifier::rlimit(60)]
    #[verifier::spinoff_prover]
    pub fn purge_old_builds(&mut self)
        requires
            old(self).wf(),
        ensures
            final(self).wf(),
            final(self).builds@ == keep_rows(
                old(self).builds@,
                |b: InDatabase<JobBuild>| !build_superseded(old(self).jobs@, b.item),
            ),
            final(self).runs@ == keep_rows(
                old(self).runs@,
                |r: InDatabase<Run>| !run_row_superseded(old(self).jobs@, old(self).builds@, r.item),
            ),
            final(self).artifacts@ == keep_rows(
                old(self).artifacts@,
                |a: InDatabase<Artifact>| !run_id_superseded(
                    old(self).jobs@,
                    old(self).builds@,
                    old(self).runs@,
                    a.item.run_id,
                ),
            ),
            final(self).issues@ == keep_rows(
                old(self).issues@,
                |i: InDatabase<IssueInfo>| !run_id_superseded(
                    old(self).jobs@,
                    old(self).builds@,
                    old(self).runs@,
                    i.item.run_id,
                ),
            ),
            final(self).similarities@ == keep_rows(
                old(self).similarities@,
                |s: InDatabase<SimilarityInfo>| !hash_touches(
                    old(self).similarities@,
                    old(self).issues@,
                    |id: i64| run_id_superseded(
                        old(self).jobs@,
                        old(self).builds@,
                        old(self).runs@,
                        id,
                    ),
                    s.item.similarity_hash,
                ),
            ),
            final(self).jobs == old(self).jobs,
            final(self).tags == old(self).tags,
            final(self).next_id == old(self).next_id,
    {
        let ghost ojobs = old(self).jobs@;
        let ghost obuilds = old(self).builds@;
        let ghost oruns = old(self).runs@;

        // Which builds are superseded.
        let mut doomed_builds: Vec<i64> = Vec::new();
        let mut k: usize = 0;
        while k < self.builds.len()
            invariant
                *self == *old(self),
                old(self).wf(),
                k <= obuilds.len(),
                ojobs == old(self).jobs@,
                obuilds == old(self).builds@,
                forall|j: int|
                    0 <= j < doomed_builds@.len() ==> has_id(obuilds, #[trigger] doomed_builds@[j])
                        && build_superseded(ojobs, row_by_id(obuilds, doomed_builds@[j]).item),
                forall|i: int|
                    0 <= i < k && build_superseded(ojobs, #[trigger] obuilds[i].item)
                        ==> doomed_builds@.contains(obuilds[i].id),
            decreases obuilds.len() - k,
        {
            let jid = self.builds[k].item.job_id;
            let number = self.builds[k].item.number;
            let superseded = match find_by_id(&self.jobs, jid) {
                Some(w) => match self.jobs[w].item.last_build {
                    Some(last) => number < last,
                    None => false,
                },
                None => false,
            };
            let ghost pre = doomed_builds@;
            proof {
                assert(superseded == build_superseded(ojobs, obuilds[k as int].item));
            }
            if superseded {
                let id = self.builds[k].id;
                proof {
                    assert(obuilds[k as int].id == id);
                    assert(has_id(obuilds, id));
                    let w = choose|w: int| 0 <= w < obuilds.len() && #[trigger] obuilds[w].id == id;
                    assert(w == k as int) by {
                        if w != k as int {
                            assert(obuilds[w].id != obuilds[k as int].id);
                        }
                    }
                    assert(row_by_id(obuilds, id) == obuilds[k as int]);
                }
                doomed_builds.push(id);
            }
            proof {
                assert forall|i: int|
                    0 <= i < k + 1 && build_superseded(ojobs, #[trigger] obuilds[i].item)
                        implies doomed_builds@.contains(obuilds[i].id) by {
                    if i < k {
                        assert(pre.contains(obuilds[i].id));
                        let w = choose|w: int| 0 <= w < pre.len() && pre[w] == obuilds[i].id;
                        assert(doomed_builds@[w] == obuilds[i].id);
                    } else {
                        assert(doomed_builds@[doomed_builds@.len() - 1] == obuilds[i].id);
                    }
                }
            }
            k += 1;
        }
        proof {
            assert forall|id: i64| #[trigger]
                doomed_builds@.contains(id) == (has_id(obuilds, id) && build_superseded(
                ojobs,
                row_by_id(obuilds, id).item,
            )) by {
                if doomed_builds@.contains(id) {
                    let w = choose|w: int| 0 <= w < doomed_builds@.len() && doomed_builds@[w] == id;
                    assert(has_id(obuilds, doomed_builds@[w]) && build_superseded(
                        ojobs,
                        row_by_id(obuilds, doomed_builds@[w]).item,
                    ));
                }
                if has_id(obuilds, id) && build_superseded(ojobs, row_by_id(obuilds, id).item) {
                    let w = choose|w: int| 0 <= w < obuilds.len() && #[trigger] obuilds[w].id == id;
                    assert(row_by_id(obuilds, id) == obuilds[w]);
                    assert(doomed_builds@.contains(obuilds[w].id));
                }
            }
        }

        // Which runs sit under a superseded build.
        let mut doomed_runs: Vec<i64> = Vec::new();
        let mut k: usize = 0;
        while k < self.runs.len()
            invariant
                *self == *old(self),
                old(self).wf(),
                k <= oruns.len(),
                ojobs == old(self).jobs@,
                obuilds == old(self).builds@,
                oruns == old(self).runs@,
                forall|id: i64| #[trigger]
                    doomed_builds@.contains(id) == (has_id(obuilds, id) && build_superseded(
                        ojobs,
                        row_by_id(obuilds, id).item,
                    )),
                forall|j: int|
                    0 <= j < doomed_runs@.len() ==> has_id(oruns, #[trigger] doomed_runs@[j])
                        && run_row_superseded(
                        ojobs,
                        obuilds,
                        row_by_id(oruns, doomed_runs@[j]).item,
                    ),
                forall|i: int|
                    0 <= i < k && run_row_superseded(ojobs, obuilds, #[trigger] oruns[i].item)
                        ==> doomed_runs@.contains(oruns[i].id),
            decreases oruns.len() - k,
        {
            let superseded = contains_i64(&doomed_builds, self.runs[k].item.build_id);
            let ghost pre = doomed_runs@;
            proof {
                if superseded {
                    assert(run_row_superseded(ojobs, obuilds, oruns[k as int].item));
                } else {
                    if run_row_superseded(ojobs, obuilds, oruns[k as int].item) {
                        assert(doomed_builds@.contains(oruns[k as int].item.build_id));
                    }
                }
            }
            if superseded {
                let id = self.runs[k].id;
                proof {
                    assert(oruns[k as int].id == id);
                    assert(has_id(oruns, id));
                    let w = choose|w: int| 0 <= w < oruns.len() && #[trigger] oruns[w].id == id;
                    assert(w == k as int) by {
                        if w != k as int {
                            assert(oruns[w].id != oruns[k as int].id);
                        }
                    }
                    assert(row_by_id(oruns, id) == oruns[k as int]);
                }
                doomed_runs.push(id);
            }
            proof {
                assert forall|i: int|
                    0 <= i < k + 1 && run_row_superseded(ojobs, obuilds, #[trigger] oruns[i].item)
                        implies doomed_runs@.contains(oruns[i].id) by {
                    if i < k {
                        assert(pre.contains(oruns[i].id));
                        let w = choose|w: int| 0 <= w < pre.len() && pre[w] == oruns[i].id;
                        assert(doomed_runs@[w] == oruns[i].id);
                    } else {
                        assert(doomed_runs@[doomed_runs@.len() - 1] == oruns[i].id);
                    }
                }
            }
            k += 1;
        }
        let ghost bad = |id: i64| run_id_superseded(ojobs, obuilds, oruns, id);
        proof {
            assert forall|id: i64| doomed_runs@.contains(id) == #[trigger] bad(id) by {
                if doomed_runs@.contains(id) {
                    let w = choose|w: int| 0 <= w < doomed_runs@.len() && doomed_runs@[w] == id;
                    assert(has_id(oruns, doomed_runs@[w]) && run_row_superseded(
                        ojobs,
                        obuilds,
                        row_by_id(oruns, doomed_runs@[w]).item,
                    ));
                }
                if bad(id) {
                    let w = choose|w: int| 0 <= w < oruns.len() && #[trigger] oruns[w].id == id;
                    assert(row_by_id(oruns, id) == oruns[w]);
                    assert(run_row_superseded(ojobs, obuilds, oruns[w].item));
                    assert(doomed_runs@.contains(oruns[w].id));
                }
            }
        }

        let ghost osims = old(self).similarities@;
        let ghost oissues = old(self).issues@;
        self.purge_runs_cascade(&doomed_runs);

        // Now drop the superseded builds themselves.
        let ghost p_build = |b: InDatabase<JobBuild>| !doomed_builds@.contains(b.id);
        let ghost mid = *self;
        let total_builds = self.builds.len();
        let mut kept_builds: Vec<InDatabase<JobBuild>> = Vec::new();
        let mut k: usize = 0;
        while self.builds.len() > 0
            invariant
                mid.wf(),
                p_build == (|b: InDatabase<JobBuild>| !doomed_builds@.contains(b.id)),
                obuilds == mid.builds@,
                obuilds.len() == total_builds,
                k <= obuilds.len(),
                self.builds@ =~= obuilds.subrange(k as int, obuilds.len() as int),
                kept_builds@ == keep_rows(obuilds.subrange(0, k as int), p_build),
                self.jobs == mid.jobs,
                self.runs == mid.runs,
                self.artifacts == mid.artifacts,
                self.issues == mid.issues,
                self.tags == mid.tags,
                self.similarities == mid.similarities,
                self.next_id == mid.next_id,
            decreases self.builds@.len(),
        {
            let row = self.builds.remove(0);
            proof {
                assert(row == obuilds[k as int]);
                assert(self.builds@ =~= obuilds.subrange(k as int + 1, obuilds.len() as int));
            }
            let keep_it = !contains_i64(&doomed_builds, row.id);
            proof {
                let pre = obuilds.subrange(0, k as int);
                let cur = obuilds.subrange(0, k as int + 1);
                assert(cur.drop_last() =~= pre);
                assert(cur.last() == obuilds[k as int]);
                assert(keep_it == p_build(obuilds[k as int]));
            }
            if keep_it {
                kept_builds.push(row);
            }
            k += 1;
        }
        proof {
            assert(obuilds.subrange(0, k as int) =~= obuilds);
        }
        self.builds = kept_builds;

        proof {
            let nid = old(self).next_id;
            lemma_keep_rows(obuilds, p_build, nid);
            let builds2 = self.builds@;

            assert forall|i: int, j: int| 0 <= i < j < builds2.len() implies #[trigger] builds2[i].item.url@
                != #[trigger] builds2[j].item.url@ by {
                assert(obuilds.contains(builds2[i]) && obuilds.contains(builds2[j]));
                let wi = choose|w: int| 0 <= w < obuilds.len() && obuilds[w] == builds2[i];
                let wj = choose|w: int| 0 <= w < obuilds.len() && obuilds[w] == builds2[j];
                assert(wi != wj) by {
                    if wi == wj {
                        assert(builds2[i].id == builds2[j].id);
                        assert(ids_unique(builds2));
                    }
                }
                if wi < wj {
                    assert(obuilds[wi].item.url@ != obuilds[wj].item.url@);
                } else {
                    assert(obuilds[wj].item.url@ != obuilds[wi].item.url@);
                }
            }

            // Kept builds still reference jobs (untouched).
            assert forall|i: int| 0 <= i < builds2.len() implies has_id(
                self.jobs@,
                #[trigger] builds2[i].item.job_id,
            ) by {
                assert(obuilds.contains(builds2[i]));
                let w = choose|w: int| 0 <= w < obuilds.len() && obuilds[w] == builds2[i];
                assert(has_id(ojobs, obuilds[w].item.job_id));
            }

            // Kept runs still reference kept builds.
            assert forall|i: int| 0 <= i < self.runs@.len() implies has_id(
                builds2,
                #[trigger] self.runs@[i].item.build_id,
            ) by {
                let p_run = |r: InDatabase<Run>| !doomed_runs@.contains(r.id);
                lemma_keep_rows(oruns, p_run, nid);
                assert(self.runs@ == keep_rows(oruns, p_run));
                assert(oruns.contains(self.runs@[i]) && p_run(self.runs@[i]));
                let w = choose|w: int| 0 <= w < oruns.len() && oruns[w] == self.runs@[i];
                let bid = self.runs@[i].item.build_id;
                assert(has_id(obuilds, bid));
                assert(row_by_id(oruns, self.runs@[i].id) == oruns[w]) by {
                    let v = choose|v: int|
                        0 <= v < oruns.len() && #[trigger] oruns[v].id == self.runs@[i].id;
                    assert(v == w) by {
                        if v != w {
                            assert(oruns[v].id != oruns[w].id);
                        }
                    }
                }
                assert(!run_row_superseded(ojobs, obuilds, self.runs@[i].item)) by {
                    if run_row_superseded(ojobs, obuilds, self.runs@[i].item) {
                        assert(bad(self.runs@[i].id));
                        assert(doomed_runs@.contains(self.runs@[i].id));
                    }
                }
                assert(p_build(row_by_id(obuilds, bid))) by {
                    let v = choose|v: int| 0 <= v < obuilds.len() && #[trigger] obuilds[v].id == bid;
                    assert(row_by_id(obuilds, bid) == obuilds[v]);
                    if doomed_builds@.contains(obuilds[v].id) {
                        assert(build_superseded(ojobs, row_by_id(obuilds, obuilds[v].id).item));
                    }
                }
                lemma_keep_rows_lookup(obuilds, p_build, bid);
            }

            // Rewrite into the advertised predicates.
            let p_run = |r: InDatabase<Run>| !doomed_runs@.contains(r.id);
            let q_run = |r: InDatabase<Run>| !run_row_superseded(
                old(self).jobs@,
                old(self).builds@,
                r.item,
            );
            assert forall|j: int| 0 <= j < oruns.len() implies p_run(#[trigger] oruns[j]) == q_run(
                oruns[j],
            ) by {
                assert(row_by_id(oruns, oruns[j].id) == oruns[j]) by {
                    assert(has_id(oruns, oruns[j].id));
                    let v = choose|v: int|
                        0 <= v < oruns.len() && #[trigger] oruns[v].id == oruns[j].id;
                    assert(v == j) by {
                        if v != j {
                            assert(oruns[v].id != oruns[j].id);
                        }
                    }
                }
                assert(doomed_runs@.contains(oruns[j].id) == bad(oruns[j].id));
            }
            lemma_keep_rows_congruence(oruns, p_run, q_run);

            let q_build = |b: InDatabase<JobBuild>| !build_superseded(old(self).jobs@, b.item);
            assert forall|j: int| 0 <= j < obuilds.len() implies p_build(#[trigger] obuilds[j])
                == q_build(obuilds[j]) by {
                assert(row_by_id(obuilds, obuilds[j].id) == obuilds[j]) by {
                    assert(has_id(obuilds, obuilds[j].id));
                    let v = choose|v: int|
                        0 <= v < obuilds.len() && #[trigger] obuilds[v].id == obuilds[j].id;
                    assert(v == j) by {
                        if v != j {
                            assert(obuilds[v].id != obuilds[j].id);
                        }
                    }
                }
            }
            lemma_keep_rows_congruence(obuilds, p_build, q_build);

            let p_art = |a: InDatabase<Artifact>| !doomed_runs@.contains(a.item.run_id);
            let q_art = |a: InDatabase<Artifact>| !run_id_superseded(
                old(self).jobs@,
                old(self).builds@,
                old(self).runs@,
                a.item.run_id,
            );
            assert(p_art =~= q_art) by {
                assert forall|a: InDatabase<Artifact>| #[trigger] p_art(a) == q_art(a) by {
                    assert(doomed_runs@.contains(a.item.run_id) == bad(a.item.run_id));
                }
            }

            let p_iss = |i: InDatabase<IssueInfo>| !doomed_runs@.contains(i.item.run_id);
            let q_iss = |i: InDatabase<IssueInfo>| !run_id_superseded(
                old(self).jobs@,
                old(self).builds@,
                old(self).runs@,
                i.item.run_id,
            );
            assert(p_iss =~= q_iss) by {
                assert forall|i: InDatabase<IssueInfo>| #[trigger] p_iss(i) == q_iss(i) by {
                    assert(doomed_runs@.contains(i.item.run_id) == bad(i.item.run_id));
                }
            }

            lemma_hash_hits_equiv(osims, oissues, doomed_runs@, bad);
            let p_sim = |s2: InDatabase<SimilarityInfo>| !hash_hits_doomed(
                old(self).similarities@,
                old(self).issues@,
                doomed_runs@,
                s2.item.similarity_hash,
            );
            let q_sim = |s2: InDatabase<SimilarityInfo>| !hash_touches(
                old(self).similarities@,
                old(self).issues@,
                |id: i64| run_id_superseded(
                    old(self).jobs@,
                    old(self).builds@,
                    old(self).runs@,
                    id,
                ),
                s2.item.similarity_hash,
            );
            assert(p_sim =~= q_sim) by {
                assert forall|s2: InDatabase<SimilarityInfo>| #[trigger] p_sim(s2) == q_sim(
                    s2,
                ) by {
                    let inner = |id: i64| run_id_superseded(
                        old(self).jobs@,
                        old(self).builds@,
                        old(self).runs@,
                        id,
                    );
                    assert(inner =~= bad);
                    assert(hash_touches(osims, oissues, bad, s2.item.similarity_hash)
                        == hash_hits_doomed(osims, oissues, doomed_runs@, s2.item.similarity_hash));
                }
            }
        }
    }
}


/// Whether the run was parsed with a fingerprint other than `current`.
pub open spec fn run_stale(r: Run, current: u64) -> bool {
    r.tag_schema is Some && r.tag_schema->0 != current
}

/// Whether the run with id `id` was parsed with an outdated fingerprint.
pub open spec fn run_id_stale(runs: Seq<InDatabase<Run>>, current: u64, id: i64) -> bool {
    has_id(runs, id) && run_stale(row_by_id(runs, id).item, current)
}

impl Database {
    /// Restore the unparsed state for every run whose stored fingerprint
    /// differs from `current_schema`: remove the similarity groups that
    /// touched those runs, remove their findings, and reset their
    /// fingerprint to absent. Returns how many runs were reset.
    #[verifier::rlimit(60)]
    #[verifier::spinoff_prover]
    pub fn purge_invalid_issues_by_tag_schema(&mut self, current_schema: u64) -> (removed: usize)
        requires
            old(self).wf(),
        ensures
            final(self).wf(),
            final(self).issues@ == keep_rows(
                old(self).issues@,
                |i: InDatabase<IssueInfo>| !run_id_stale(
                    old(self).runs@,
                    current_schema,
                    i.item.run_id,
                ),
            ),
            final(self).similarities@ == keep_rows(
                old(self).similarities@,
                |s: InDatabase<SimilarityInfo>| !hash_touches(
                    old(self).similarities@,
                    old(self).issues@,
                    |id: i64| run_id_stale(old(self).runs@, current_schema, id),
                    s.item.similarity_hash,
                ),
            ),
            final(self).runs@.len() == old(self).runs@.len(),
            forall|i: int|
                0 <= i < old(self).runs@.len() ==> #[trigger] final(self).runs@[i] == (if run_stale(
                    old(self).runs@[i].item,
                    current_schema,
                ) {
                    InDatabase {
                        id: old(self).runs@[i].id,
                        item: Run { tag_schema: None, ..old(self).runs@[i].item },
                    }
                } else {
                    old(self).runs@[i]
                }),
            final(self).jobs == old(self).jobs,
            final(self).builds == old(self).builds,
            final(self).artifacts == old(self).artifacts,
            final(self).tags == old(self).tags,
            final(self).next_id == old(self).next_id,
            removed == keep_rows(
                old(self).runs@,
                |r: InDatabase<Run>| run_stale(r.item, current_schema),
            ).len(),
    {
        let ghost oruns = old(self).runs@;
        let ghost osims = old(self).similarities@;
        let ghost oissues = old(self).issues@;
        let ghost p_stale = |r: InDatabase<Run>| run_stale(r.item, current_schema);

        // Which runs are stale.
        let mut stale_runs: Vec<i64> = Vec::new();
        let mut k: usize = 0;
        while k < self.runs.len()
            invariant
                *self == *old(self),
                old(self).wf(),
                k <= oruns.len(),
                oruns == old(self).runs@,
                p_stale == (|r: InDatabase<Run>| run_stale(r.item, current_schema)),
                stale_runs@.len() == keep_rows(oruns.subrange(0, k as int), p_stale).len(),
                forall|j: int|
                    0 <= j < stale_runs@.len() ==> has_id(oruns, #[trigger] stale_runs@[j])
                        && run_stale(row_by_id(oruns, stale_runs@[j]).item, current_schema),
                forall|i: int|
                    0 <= i < k && run_stale(#[trigger] oruns[i].item, current_schema)
                        ==> stale_runs@.contains(oruns[i].id),
            decreases oruns.len() - k,
        {
            let stale = match self.runs[k].item.tag_schema {
                Some(sch) => sch != current_schema,
                None => false,
            };
            let ghost pre = stale_runs@;
            proof {
                assert(stale == run_stale(oruns[k as int].item, current_schema));
                let prekeep = oruns.subrange(0, k as int);
                let curkeep = oruns.subrange(0, k as int + 1);
                assert(curkeep.drop_last() =~= prekeep);
                assert(curkeep.last() == oruns[k as int]);
            }
            if stale {
                let id = self.runs[k].id;
                proof {
                    assert(oruns[k as int].id == id);
                    assert(has_id(oruns, id));
                    let w = choose|w: int| 0 <= w < oruns.len() && #[trigger] oruns[w].id == id;
                    assert(w == k as int) by {
                        if w != k as int {
                            assert(oruns[w].id != oruns[k as int].id);
                        }
                    }
                    assert(row_by_id(oruns, id) == oruns[k as int]);
                }
                stale_runs.push(id);
            }
            proof {
                assert forall|i: int|
                    0 <= i < k + 1 && run_stale(#[trigger] oruns[i].item, current_schema)
                        implies stale_runs@.contains(oruns[i].id) by {
                    if i < k {
                        assert(pre.contains(oruns[i].id));
                        let w = choose|w: int| 0 <= w < pre.len() && pre[w] == oruns[i].id;
                        assert(stale_runs@[w] == oruns[i].id);
                    } else {
                        assert(stale_runs@[stale_runs@.len() - 1] == oruns[i].id);
                    }
                }
            }
            k += 1;
        }
        let removed = stale_runs.len();
        let ghost bad = |id: i64| run_id_stale(oruns, current_schema, id);
        proof {
            assert(oruns.subrange(0, oruns.len() as int) =~= oruns);
            assert forall|id: i64| stale_runs@.contains(id) == #[trigger] bad(id) by {
                if stale_runs@.contains(id) {
                    let w = choose|w: int| 0 <= w < stale_runs@.len() && stale_runs@[w] == id;
                    assert(has_id(oruns, stale_runs@[w]) && run_stale(
                        row_by_id(oruns, stale_runs@[w]).item,
                        current_schema,
                    ));
                }
                if bad(id) {
                    let w = choose|w: int| 0 <= w < oruns.len() && #[trigger] oruns[w].id == id;
                    assert(row_by_id(oruns, id) == oruns[w]);
                    assert(run_stale(oruns[w].item, current_schema));
                    assert(stale_runs@.contains(oruns[w].id));
                }
            }
        }

        // Collect the hashes of every group that touches a stale run.
        let mut doomed_hashes: Vec<u64> = Vec::new();
        let mut k: usize = 0;
        while k < self.similarities.len()
            invariant
                *self == *old(self),
                old(self).wf(),
                osims == old(self).similarities@,
                oissues == old(self).issues@,
                k <= osims.len(),
                forall|j: int|
                    0 <= j < doomed_hashes@.len() ==> hash_hits_doomed(
                        osims,
                        oissues,
                        stale_runs@,
                        #[trigger] doomed_hashes@[j],
                    ),
                forall|i: int|
                    0 <= i < k && issue_in_doomed_run(
                        oissues,
                        stale_runs@,
                        #[trigger] osims[i].item.issue_id,
                    ) ==> doomed_hashes@.contains(osims[i].item.similarity_hash),
            decreases osims.len() - k,
        {
            let issue_id = self.similarities[k].item.issue_id;
            let h = self.similarities[k].item.similarity_hash;
            let doomed = match find_by_id(&self.issues, issue_id) {
                Some(w) => {
                    let rid = self.issues[w].item.run_id;
                    contains_i64(&stale_runs, rid)
                },
                None => false,
            };
            let ghost pre = doomed_hashes@;
            if doomed {
                proof {
                    assert(issue_in_doomed_run(oissues, stale_runs@, issue_id));
                    assert(osims[k as int].item.similarity_hash == h);
                    assert(hash_hits_doomed(osims, oissues, stale_runs@, h));
                }
                doomed_hashes.push(h);
            }
            proof {
                assert forall|i: int|
                    0 <= i < k + 1 && issue_in_doomed_run(
                        oissues,
                        stale_runs@,
                        #[trigger] osims[i].item.issue_id,
                    ) implies doomed_hashes@.contains(osims[i].item.similarity_hash) by {
                    if i < k {
                        assert(pre.contains(osims[i].item.similarity_hash));
                        let w = choose|w: int|
                            0 <= w < pre.len() && pre[w] == osims[i].item.similarity_hash;
                        assert(doomed_hashes@[w] == osims[i].item.similarity_hash);
                    } else {
                        assert(doomed);
                        assert(doomed_hashes@[doomed_hashes@.len() - 1] == h);
                    }
                }
            }
            k += 1;
        }
        proof {
            assert forall|h: u64| #[trigger]
                doomed_hashes@.contains(h) == hash_hits_doomed(osims, oissues, stale_runs@, h) by {
                if doomed_hashes@.contains(h) {
                    let w = choose|w: int|
                        0 <= w < doomed_hashes@.len() && doomed_hashes@[w] == h;
                    assert(hash_hits_doomed(osims, oissues, stale_runs@, doomed_hashes@[w]));
                }
                if hash_hits_doomed(osims, oissues, stale_runs@, h) {
                    let i = choose|i: int|
                        0 <= i < osims.len() && #[trigger] osims[i].item.similarity_hash == h
                            && issue_in_doomed_run(oissues, stale_runs@, osims[i].item.issue_id);
                    assert(doomed_hashes@.contains(osims[i].item.similarity_hash));
                }
            }
        }

        // Drop every group with a doomed hash.
        let ghost p_sim = |s: InDatabase<SimilarityInfo>| !doomed_hashes@.contains(
            s.item.similarity_hash,
        );
        let total_sims = self.similarities.len();
        let mut kept_sims: Vec<InDatabase<SimilarityInfo>> = Vec::new();
        let mut k: usize = 0;
        while self.similarities.len() > 0
            invariant
                old(self).wf(),
                p_sim == (|s: InDatabase<SimilarityInfo>| !doomed_hashes@.contains(
                    s.item.similarity_hash,
                )),
                osims == old(self).similarities@,
                osims.len() == total_sims,
                k <= osims.len(),
                self.similarities@ =~= osims.subrange(k as int, osims.len() as int),
                kept_sims@ == keep_rows(osims.subrange(0, k as int), p_sim),
                self.jobs == old(self).jobs,
                self.builds == old(self).builds,
                self.runs == old(self).runs,
                self.artifacts == old(self).artifacts,
                self.issues == old(self).issues,
                self.tags == old(self).tags,
                self.next_id == old(self).next_id,
            decreases self.similarities@.len(),
        {
            let row = self.similarities.remove(0);
            proof {
                assert(row == osims[k as int]);
                assert(self.similarities@ =~= osims.subrange(k as int + 1, osims.len() as int));
            }
            let keep_it = !contains_u64(&doomed_hashes, row.item.similarity_hash);
            proof {
                let pre = osims.subrange(0, k as int);
                let cur = osims.subrange(0, k as int + 1);
                assert(cur.drop_last() =~= pre);
                assert(cur.last() == osims[k as int]);
                assert(keep_it == p_sim(osims[k as int]));
            }
            if keep_it {
                kept_sims.push(row);
            }
            k += 1;
        }
        proof {
            assert(osims.subrange(0, k as int) =~= osims);
        }
        self.similarities = kept_sims;
        let ghost sims_kept = self.similarities@;

        // Drop the findings of every stale run.
        let ghost p_iss = |i: InDatabase<IssueInfo>| !stale_runs@.contains(i.item.run_id);
        let total_issues = self.issues.len();
        let mut kept_issues: Vec<InDatabase<IssueInfo>> = Vec::new();
        let mut k: usize = 0;
        while self.issues.len() > 0
            invariant
                old(self).wf(),
                p_iss == (|i: InDatabase<IssueInfo>| !stale_runs@.contains(i.item.run_id)),
                oissues == old(self).issues@,
                oissues.len() == total_issues,
                k <= oissues.len(),
                self.issues@ =~= oissues.subrange(k as int, oissues.len() as int),
                kept_issues@ == keep_rows(oissues.subrange(0, k as int), p_iss),
                self.similarities@ == sims_kept,
                self.jobs == old(self).jobs,
                self.builds == old(self).builds,
                self.runs == old(self).runs,
                self.artifacts == old(self).artifacts,
                self.tags == old(self).tags,
                self.next_id == old(self).next_id,
            decreases self.issues@.len(),
        {
            let row = self.issues.remove(0);
            proof {
                assert(row == oissues[k as int]);
                assert(self.issues@ =~= oissues.subrange(k as int + 1, oissues.len() as int));
            }
            let keep_it = !contains_i64(&stale_runs, row.item.run_id);
            proof {
                let pre = oissues.subrange(0, k as int);
                let cur = oissues.subrange(0, k as int + 1);
                assert(cur.drop_last() =~= pre);
                assert(cur.last() == oissues[k as int]);
                assert(keep_it == p_iss(oissues[k as int]));
            }
            if keep_it {
                kept_issues.push(row);
            }
            k += 1;
        }
        proof {
            assert(oissues.subrange(0, k as int) =~= oissues);
        }
        self.issues = kept_issues;
        let ghost issues_kept = self.issues@;

        // Reset the stale runs to the unparsed state.
        let mut k: usize = 0;
        while k < self.runs.len()
            invariant
                old(self).wf(),
                oruns == old(self).runs@,
                forall|id: i64| stale_runs@.contains(id) == #[trigger] bad(id),
                bad == (|id: i64| run_id_stale(oruns, current_schema, id)),
                k <= self.runs@.len(),
                self.runs@.len() == oruns.len(),
                forall|i: int|
                    0 <= i < k ==> #[trigger] self.runs@[i] == (if run_stale(
                        oruns[i].item,
                        current_schema,
                    ) {
                        InDatabase {
                            id: oruns[i].id,
                            item: Run { tag_schema: None, ..oruns[i].item },
                        }
                    } else {
                        oruns[i]
                    }),
                forall|i: int| k <= i < self.runs@.len() ==> #[trigger] self.runs@[i] == oruns[i],
                self.similarities@ == sims_kept,
                self.issues@ == issues_kept,
                self.jobs == old(self).jobs,
                self.builds == old(self).builds,
                self.artifacts == old(self).artifacts,
                self.tags == old(self).tags,
                self.next_id == old(self).next_id,
            decreases self.runs@.len() - k,
        {
            let ghost pre_runs = self.runs@;
            let row = self.runs.remove(k);
            let is_stale = match row.item.tag_schema {
                Some(sch) => sch != current_schema,
                None => false,
            };
            let new_row = if is_stale {
                InDatabase {
                    id: row.id,
                    item: Run {
                        url: row.item.url,
                        status: row.item.status,
                        display_name: row.item.display_name,
                        log: row.item.log,
                        tag_schema: None,
                        build_id: row.item.build_id,
                    },
                }
            } else {
                row
            };
            self.runs.insert(k, new_row);
            proof {
                assert(self.runs@ =~= pre_runs.update(k as int, new_row));
            }
            k += 1;
        }

        // Re-establish the invariant over the final tables.
        proof {
            let nid = old(self).next_id;
            lemma_keep_rows(osims, p_sim, nid);
            lemma_keep_rows(oissues, p_iss, nid);
            let runs2 = self.runs@;
            let issues2 = self.issues@;
            let sims2 = self.similarities@;

            assert forall|i: int| 0 <= i < runs2.len() implies #[trigger] runs2[i].id == oruns[i].id
                && runs2[i].item.url@ == oruns[i].item.url@ && runs2[i].item.build_id
                == oruns[i].item.build_id && runs2[i].item.display_name == oruns[i].item.display_name
                && runs2[i].item.log == oruns[i].item.log by {}

            assert forall|i: int| 0 <= i < runs2.len() implies has_id(
                self.builds@,
                #[trigger] runs2[i].item.build_id,
            ) by {
                assert(has_id(old(self).builds@, oruns[i].item.build_id));
            }

            assert forall|i: int| 0 <= i < self.artifacts@.len() implies has_id(
                runs2,
                #[trigger] self.artifacts@[i].item.run_id,
            ) by {
                assert(has_id(oruns, self.artifacts@[i].item.run_id));
                let w = choose|w: int|
                    0 <= w < oruns.len() && #[trigger] oruns[w].id == self.artifacts@[i].item.run_id;
                assert(runs2[w].id == self.artifacts@[i].item.run_id);
            }

            assert forall|i: int| 0 <= i < issues2.len() implies issue_contained(
                runs2,
                self.tags@,
                self.artifacts@,
                #[trigger] issues2[i].item,
            ) by {
                assert(oissues.contains(issues2[i]) && p_iss(issues2[i]));
                let iss = issues2[i].item;
                let w = choose|w: int| 0 <= w < oissues.len() && oissues[w] == issues2[i];
                assert(issue_contained(oruns, self.tags@, self.artifacts@, oissues[w].item));
                let v = choose|v: int| 0 <= v < oruns.len() && #[trigger] oruns[v].id == iss.run_id;
                assert(row_by_id(oruns, iss.run_id) == oruns[v]);
                assert(runs2[v].id == iss.run_id);
                assert(has_id(runs2, iss.run_id));
                assert(row_by_id(runs2, iss.run_id) == runs2[v]) by {
                    let v2 = choose|v2: int|
                        0 <= v2 < runs2.len() && #[trigger] runs2[v2].id == iss.run_id;
                    assert(v2 == v) by {
                        if v2 != v {
                            assert(runs2[v2].id == oruns[v2].id && runs2[v].id == oruns[v].id);
                            assert(oruns[v2].id != oruns[v].id);
                        }
                    }
                }
                assert(runs2[v].item.log == oruns[v].item.log && runs2[v].item.display_name
                    == oruns[v].item.display_name);
            }

            assert forall|i: int| 0 <= i < sims2.len() implies has_id(
                issues2,
                #[trigger] sims2[i].item.issue_id,
            ) by {
                assert(osims.contains(sims2[i]) && p_sim(sims2[i]));
                let w = choose|w: int| 0 <= w < osims.len() && osims[w] == sims2[i];
                let iid = sims2[i].item.issue_id;
                assert(has_id(oissues, iid));
                assert(!issue_in_doomed_run(oissues, stale_runs@, iid)) by {
                    if issue_in_doomed_run(oissues, stale_runs@, iid) {
                        assert(osims[w].item.similarity_hash == sims2[i].item.similarity_hash);
                        assert(hash_hits_doomed(osims, oissues, stale_runs@, sims2[i].item.similarity_hash));
                        assert(doomed_hashes@.contains(sims2[i].item.similarity_hash));
                    }
                }
                assert(p_iss(row_by_id(oissues, iid)));
                lemma_keep_rows_lookup(oissues, p_iss, iid);
            }

            assert forall|i: int| 0 <= i < sims2.len() implies #[trigger] sim_has_partner(
                sims2,
                i,
            ) by {
                assert(osims.contains(sims2[i]) && p_sim(sims2[i]));
                let w = choose|w: int| 0 <= w < osims.len() && osims[w] == sims2[i];
                assert(sim_has_partner(osims, w));
                let u = choose|u: int|
                    0 <= u < osims.len() && #[trigger] osims[u].item.similarity_hash
                        == osims[w].item.similarity_hash && osims[u].item.issue_id
                        != osims[w].item.issue_id;
                assert(p_sim(osims[u]));
                assert(keep_rows(osims, p_sim).contains(osims[u]));
                let v = choose|v: int| 0 <= v < sims2.len() && sims2[v] == osims[u];
                assert(sims2[v].item.similarity_hash == sims2[i].item.similarity_hash
                    && sims2[v].item.issue_id != sims2[i].item.issue_id);
            }

            assert forall|i: int, j: int| 0 <= i < j < runs2.len() implies #[trigger] runs2[i].id
                != #[trigger] runs2[j].id by {
                assert(oruns[i].id != oruns[j].id);
            }
            assert forall|i: int, j: int| 0 <= i < j < runs2.len() implies #[trigger] runs2[i].item.url@
                != #[trigger] runs2[j].item.url@ by {
                assert(oruns[i].item.url@ != oruns[j].item.url@);
            }
            assert forall|i: int| 0 <= i < runs2.len() implies 1 <= #[trigger] runs2[i].id < nid by {
                assert(1 <= oruns[i].id < nid);
            }

            // Rewrite into the advertised predicates.
            let q_iss = |i: InDatabase<IssueInfo>| !run_id_stale(
                old(self).runs@,
                current_schema,
                i.item.run_id,
            );
            assert(p_iss =~= q_iss) by {
                assert forall|i: InDatabase<IssueInfo>| #[trigger] p_iss(i) == q_iss(i) by {
                    assert(stale_runs@.contains(i.item.run_id) == bad(i.item.run_id));
                }
            }

            lemma_hash_hits_equiv(osims, oissues, stale_runs@, bad);
            let p_sim2 = |s2: InDatabase<SimilarityInfo>| !hash_hits_doomed(
                old(self).similarities@,
                old(self).issues@,
                stale_runs@,
                s2.item.similarity_hash,
            );
            let q_sim = |s2: InDatabase<SimilarityInfo>| !hash_touches(
                old(self).similarities@,
                old(self).issues@,
                |id: i64| run_id_stale(old(self).runs@, current_schema, id),
                s2.item.similarity_hash,
            );
            assert(p_sim =~= p_sim2) by {
                assert forall|s2: InDatabase<SimilarityInfo>| #[trigger] p_sim(s2) == p_sim2(
                    s2,
                ) by {
                    assert(doomed_hashes@.contains(s2.item.similarity_hash) == hash_hits_doomed(
                        osims,
                        oissues,
                        stale_runs@,
                        s2.item.similarity_hash,
                    ));
                }
            }
            assert(p_sim2 =~= q_sim) by {
                assert forall|s2: InDatabase<SimilarityInfo>| #[trigger] p_sim2(s2) == q_sim(
                    s2,
                ) by {
                    let inner = |id: i64| run_id_stale(old(self).runs@, current_schema, id);
                    assert(inner =~= bad);
                    assert(hash_touches(osims, oissues, bad, s2.item.similarity_hash)
                        == hash_hits_doomed(osims, oissues, stale_runs@, s2.item.similarity_hash));
                }
            }
        }
        removed
    }
}

} // verus!
