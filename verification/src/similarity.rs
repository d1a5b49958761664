//! The similarity engine: single-link clustering of findings whose
//! snippets are pairwise closer than a configured threshold, measured by
//! normalized byte-level edit distance.

use vstd::prelude::*;

use crate::db::{has_id, ids_below, Database, InDatabase, Issue, SimilarityInfo};
use crate::parse::{lemma_lev_bound, lev, levenshtein_distance};

verus! {

/// The similarity acceptance threshold in rational form.
///
/// The configured threshold is `tau` in `(0, 1)`; two snippets are
/// accepted as similar when `exp(-d / (m - d)) > tau`, where `d` is their
/// edit distance and `m` the longer length. Taking logarithms, that is
/// `d / (m - d) < -ln tau`; this type carries `-ln tau` as the rational
/// `num / den`, so acceptance is the exact integer comparison
/// `d * den < num * (m - d)`.
#[derive(Clone, Copy, Debug, PartialEq, Eq, Structural)]
pub struct Threshold {
    /// Numerator of `-ln tau`.
    pub num: u64,
    /// Denominator of `-ln tau`; positive.
    pub den: u64,
}

/// Acceptance: the normalized edit distance of `a` and `b` exceeds the
/// configured threshold, as the exact rational comparison
/// `d * den < num * (m - d)` with `d = lev(a, b)` and `m` the longer
/// length. Identical snippets are always accepted (for `num > 0`), and
/// maximally distant ones never are.
pub open spec fn spec_accepts(a: Seq<u8>, b: Seq<u8>, thr: Threshold) -> bool {
    let d = lev(a, b);
    let m = if a.len() >= b.len() {
        a.len() as int
    } else {
        b.len() as int
    };
    d * thr.den < thr.num * (m - d)
}

/// The edit distance is symmetric.
pub proof fn lemma_lev_sym(a: Seq<u8>, b: Seq<u8>)
    ensures
        lev(a, b) == lev(b, a),
    decreases a.len(), b.len(),
{
    if a.len() > 0 && b.len() > 0 {
        lemma_lev_sym(a.drop_last(), b);
        lemma_lev_sym(a, b.drop_last());
        lemma_lev_sym(a.drop_last(), b.drop_last());
    }
}

/// Acceptance is symmetric in its two snippets.
pub proof fn lemma_accepts_sym(a: Seq<u8>, b: Seq<u8>, thr: Threshold)
    ensures
        spec_accepts(a, b, thr) == spec_accepts(b, a, thr),
{
    lemma_lev_sym(a, b);
}

/// Whether the normalized edit distance of the two snippets exceeds the
/// threshold.
pub fn similar(a: &Vec<u8>, b: &Vec<u8>, thr: Threshold) -> (r: bool)
    requires
        a@.len() < usize::MAX,
        b@.len() < usize::MAX,
    ensures
        r == spec_accepts(a@, b@, thr),
{
    let d = levenshtein_distance(a.as_slice(), b.as_slice());
    let m = if a.len() >= b.len() {
        a.len()
    } else {
        b.len()
    };
    proof {
        lemma_lev_bound(a@, b@);
        let dd = d as int;
        let de = thr.den as int;
        let nu = thr.num as int;
        let md = (m - d) as int;
        assert(dd * de < 0x100000000000000000000000000000000int) by (nonlinear_arith)
            requires
                0 <= dd,
                dd < 0x10000000000000000int,
                0 <= de,
                de < 0x10000000000000000int,
        ;
        assert(nu * md < 0x100000000000000000000000000000000int) by (nonlinear_arith)
            requires
                0 <= nu,
                nu < 0x10000000000000000int,
                0 <= md,
                md < 0x10000000000000000int,
        ;
    }
    let lhs: u128 = (d as u128) * (thr.den as u128);
    let rhs: u128 = (thr.num as u128) * ((m - d) as u128);
    lhs < rhs
}

/// Whether `idx` is a member of some group.
pub open spec fn placed(groups: Seq<Vec<usize>>, idx: usize) -> bool {
    exists|g: int, x: int|
        0 <= g < groups.len() && 0 <= x < groups[g]@.len() && #[trigger] groups[g]@[x] == idx
}

/// The snippet of the finding with id `id`.
pub open spec fn snippet_of(issues: Seq<InDatabase<Issue>>, id: i64) -> Seq<u8> {
    crate::db::row_by_id(issues, id).item.snippet@
}

/// Some member of `ga`, placed before candidate `x`, rejects it: the
/// record that first-fit scanning left group `ga` behind.
pub open spec fn rejected_by(
    issues: Seq<InDatabase<Issue>>,
    thr: Threshold,
    ga: Seq<usize>,
    x: usize,
) -> bool {
    exists|y: int|
        0 <= y < ga.len() && #[trigger] ga[y] < x && !spec_accepts(
            issues[x as int].item.snippet@,
            issues[ga[y] as int].item.snippet@,
            thr,
        )
}

/// Whether `idx` is a member of some group of the list.
pub open spec fn placed_in(groups: Seq<Seq<usize>>, idx: usize) -> bool {
    exists|g: int, x: int|
        0 <= g < groups.len() && 0 <= x < groups[g].len() && #[trigger] groups[g][x] == idx
}

/// The ghost view of the group list.
pub open spec fn gview(groups: Seq<Vec<usize>>) -> Seq<Seq<usize>> {
    Seq::new(groups.len(), |g: int| groups[g]@)
}

/// A faithful single-link clustering of `issues` under `thr`: nonempty
/// groups of in-bounds indices, ascending within each group, pairwise
/// disjoint and jointly complete; every group passes the all-pairs
/// acceptance rule; and the greedy first-fit record holds — every member
/// of a later group was rejected by some earlier-placed member of every
/// earlier group.
pub open spec fn valid_clustering(
    issues: Seq<InDatabase<Issue>>,
    thr: Threshold,
    groups: Seq<Seq<usize>>,
) -> bool {
    &&& forall|g: int| 0 <= g < groups.len() ==> (#[trigger] groups[g]).len() >= 1
    &&& forall|g: int, x: int|
        0 <= g < groups.len() && 0 <= x < groups[g].len() ==> #[trigger] groups[g][x]
            < issues.len()
    &&& forall|g: int, x1: int, x2: int|
        0 <= g < groups.len() && 0 <= x1 < x2 < groups[g].len() ==> #[trigger] groups[g][x1]
            < #[trigger] groups[g][x2]
    &&& forall|g1: int, x1: int, g2: int, x2: int|
        0 <= g1 < groups.len() && 0 <= x1 < groups[g1].len() && 0 <= g2 < groups.len() && 0 <= x2
            < groups[g2].len() && (g1 != g2 || x1 != x2) ==> #[trigger] groups[g1][x1]
            != #[trigger] groups[g2][x2]
    &&& forall|idx: int|
        0 <= idx < issues.len() ==> #[trigger] placed_in(groups, idx as usize)
    &&& forall|g: int| 0 <= g < groups.len() ==> group_coherent(issues, #[trigger] groups[g], thr)
    &&& forall|g1: int, g2: int, x: int|
        #![trigger groups[g1], groups[g2][x]]
        0 <= g1 < g2 < groups.len() && 0 <= x < groups[g2].len() ==> rejected_by(
            issues,
            thr,
            groups[g1],
            groups[g2][x],
        )
}

/// All-pairs acceptance inside one group of indices into `issues`.
pub open spec fn group_coherent(
    issues: Seq<InDatabase<Issue>>,
    group: Seq<usize>,
    thr: Threshold,
) -> bool {
    forall|x: int, y: int|
        0 <= x < group.len() && 0 <= y < group.len() && x != y ==> spec_accepts(
            issues[#[trigger] group[x] as int].item.snippet@,
            issues[#[trigger] group[y] as int].item.snippet@,
            thr,
        )
}

/// Single-link clustering with an all-pairs acceptance rule. Candidates
/// are processed in emission order; a candidate joins the first group all
/// of whose members accept it, else it opens a new group. Every index of
/// `issues` lands in exactly one group.
#[verifier::rlimit(100)]
#[verifier::spinoff_prover]
pub fn cluster_issues(issues: &Vec<InDatabase<Issue>>, thr: Threshold) -> (groups: Vec<Vec<usize>>)
    requires
        forall|i: int| 0 <= i < issues@.len() ==> (#[trigger] issues@[i]).item.snippet@.len()
            < usize::MAX,
    ensures
        forall|g: int, x: int|
            0 <= g < groups@.len() && 0 <= x < groups@[g]@.len() ==> #[trigger] groups@[g]@[x]
                < issues@.len(),
        forall|g: int| 0 <= g < groups@.len() ==> (#[trigger] groups@[g]@).len() >= 1,
        forall|g: int| 0 <= g < groups@.len() ==> group_coherent(issues@, #[trigger] groups@[g]@, thr),
        forall|g1: int, x1: int, g2: int, x2: int|
            0 <= g1 < groups@.len() && 0 <= x1 < groups@[g1]@.len() && 0 <= g2 < groups@.len()
                && 0 <= x2 < groups@[g2]@.len() && (g1 != g2 || x1 != x2)
                ==> #[trigger] groups@[g1]@[x1] != #[trigger] groups@[g2]@[x2],
        forall|idx: int|
            0 <= idx < issues@.len() ==> #[trigger] placed(groups@, idx as usize),
        valid_clustering(issues@, thr, gview(groups@)),
{
    let mut groups: Vec<Vec<usize>> = Vec::new();
    let mut idx: usize = 0;
    while idx < issues.len()
        invariant
            idx <= issues@.len(),
            forall|i: int| 0 <= i < issues@.len() ==> (#[trigger] issues@[i]).item.snippet@.len()
                < usize::MAX,
            forall|g: int, x: int|
                0 <= g < groups@.len() && 0 <= x < groups@[g]@.len() ==> #[trigger] groups@[g]@[x]
                    < idx,
            forall|g: int| 0 <= g < groups@.len() ==> (#[trigger] groups@[g]@).len() >= 1,
            forall|g: int|
                0 <= g < groups@.len() ==> group_coherent(issues@, #[trigger] groups@[g]@, thr),
            forall|g1: int, x1: int, g2: int, x2: int|
                0 <= g1 < groups@.len() && 0 <= x1 < groups@[g1]@.len() && 0 <= g2 < groups@.len()
                    && 0 <= x2 < groups@[g2]@.len() && (g1 != g2 || x1 != x2)
                    ==> #[trigger] groups@[g1]@[x1] != #[trigger] groups@[g2]@[x2],
            forall|i: int| 0 <= i < idx ==> #[trigger] placed(groups@, i as usize),
            forall|g: int, x1: int, x2: int|
                0 <= g < groups@.len() && 0 <= x1 < x2 < groups@[g]@.len()
                    ==> #[trigger] groups@[g]@[x1] < #[trigger] groups@[g]@[x2],
            forall|g1: int, g2: int, x: int|
                #![trigger groups@[g1], groups@[g2]@[x]]
                0 <= g1 < g2 < groups@.len() && 0 <= x < groups@[g2]@.len() ==> rejected_by(
                    issues@,
                    thr,
                    groups@[g1]@,
                    groups@[g2]@[x],
                ),
        decreases issues@.len() - idx,
    {
        let mut chosen: Option<usize> = None;
        let mut g: usize = 0;
        while g < groups.len()
            invariant
                g <= groups@.len(),
                idx < issues@.len(),
                forall|i: int| 0 <= i < issues@.len() ==> (#[trigger] issues@[i]).item.snippet@.len()
                    < usize::MAX,
                forall|g2: int, x: int|
                    0 <= g2 < groups@.len() && 0 <= x < groups@[g2]@.len()
                        ==> #[trigger] groups@[g2]@[x] < idx,
                match chosen {
                    Some(cg) => cg < groups@.len() && (forall|y: int|
                        0 <= y < groups@[cg as int]@.len() ==> spec_accepts(
                            issues@[idx as int].item.snippet@,
                            issues@[#[trigger] groups@[cg as int]@[y] as int].item.snippet@,
                            thr,
                        )) && forall|gp: int|
                        0 <= gp < cg ==> rejected_by(issues@, thr, #[trigger] groups@[gp]@, idx),
                    None => forall|gp: int|
                        0 <= gp < g ==> rejected_by(issues@, thr, #[trigger] groups@[gp]@, idx),
                },
            decreases groups@.len() - g,
        {
            if chosen.is_none() {
                let mut all_ok: bool = true;
                let mut y: usize = 0;
                while y < groups[g].len()
                    invariant
                        y <= groups@[g as int]@.len(),
                        g < groups@.len(),
                        idx < issues@.len(),
                        forall|i: int|
                            0 <= i < issues@.len() ==> (#[trigger] issues@[i]).item.snippet@.len()
                                < usize::MAX,
                        forall|g2: int, x: int|
                            0 <= g2 < groups@.len() && 0 <= x < groups@[g2]@.len()
                                ==> #[trigger] groups@[g2]@[x] < idx,
                        all_ok ==> forall|y2: int|
                            0 <= y2 < y ==> spec_accepts(
                                issues@[idx as int].item.snippet@,
                                issues@[#[trigger] groups@[g as int]@[y2] as int].item.snippet@,
                                thr,
                            ),
                        !all_ok ==> rejected_by(issues@, thr, groups@[g as int]@, idx),
                    decreases groups@[g as int]@.len() - y,
                {
                    let member = groups[g][y];
                    if !similar(&issues[idx].item.snippet, &issues[member].item.snippet, thr) {
                        proof {
                            assert(groups@[g as int]@[y as int] == member);
                            assert(member < idx);
                            assert(rejected_by(issues@, thr, groups@[g as int]@, idx));
                        }
                        all_ok = false;
                    }
                    y += 1;
                }
                if all_ok {
                    chosen = Some(g);
                }
            }
            g += 1;
        }
        match chosen {
            Some(cg) => {
                let ghost pre_groups = groups@;
                let mut grp = groups.remove(cg);
                let ghost pre_grp = grp@;
                grp.push(idx);
                groups.insert(cg, grp);
                proof {
                    assert(groups@ =~= pre_groups.update(cg as int, groups@[cg as int]));
                    assert(groups@[cg as int]@ =~= pre_grp.push(idx));
                    assert forall|gg: int|
                        0 <= gg < groups@.len() implies group_coherent(
                        issues@,
                        #[trigger] groups@[gg]@,
                        thr,
                    ) by {
                        if gg == cg as int {
                            let newg = groups@[gg]@;
                            assert forall|x: int, y: int|
                                0 <= x < newg.len() && 0 <= y < newg.len() && x != y
                                    implies spec_accepts(
                                issues@[#[trigger] newg[x] as int].item.snippet@,
                                issues@[#[trigger] newg[y] as int].item.snippet@,
                                thr,
                            ) by {
                                if x < newg.len() - 1 && y < newg.len() - 1 {
                                    assert(group_coherent(issues@, pre_grp, thr));
                                    assert(newg[x] == pre_grp[x] && newg[y] == pre_grp[y]);
                                } else if y == newg.len() - 1 {
                                    assert(newg[y] == idx as usize);
                                    assert(newg[x] == pre_grp[x]);
                                    assert(spec_accepts(
                                        issues@[idx as int].item.snippet@,
                                        issues@[newg[x] as int].item.snippet@,
                                        thr,
                                    ));
                                    lemma_accepts_sym(
                                        issues@[idx as int].item.snippet@,
                                        issues@[newg[x] as int].item.snippet@,
                                        thr,
                                    );
                                } else {
                                    assert(newg[x] == idx as usize);
                                    assert(newg[y] == pre_grp[y]);
                                    assert(spec_accepts(
                                        issues@[idx as int].item.snippet@,
                                        issues@[newg[y] as int].item.snippet@,
                                        thr,
                                    ));
                                }
                            }
                        } else {
                            assert(groups@[gg]@ == pre_groups[gg]@);
                            assert(group_coherent(issues@, pre_groups[gg]@, thr));
                        }
                    }
                    assert forall|i: int|
                        0 <= i < idx + 1 implies #[trigger] placed(groups@, i as usize) by {
                        if i < idx {
                            assert(placed(pre_groups, i as usize));
                            let (gg, x) = choose|gg: int, x: int|
                                0 <= gg < pre_groups.len() && 0 <= x < pre_groups[gg]@.len()
                                    && #[trigger] pre_groups[gg]@[x] == i as usize;
                            if gg == cg as int {
                                assert(groups@[gg]@[x] == i as usize);
                            } else {
                                assert(groups@[gg]@[x] == i as usize);
                            }
                        } else {
                            assert(groups@[cg as int]@[groups@[cg as int]@.len() - 1]
                                == idx as usize);
                        }
                    }
                    assert forall|gg: int, x1: int, x2: int|
                        0 <= gg < groups@.len() && 0 <= x1 < x2 < groups@[gg]@.len()
                            implies #[trigger] groups@[gg]@[x1] < #[trigger] groups@[gg]@[x2] by {
                        if gg == cg as int {
                            if x2 == groups@[gg]@.len() - 1 {
                                assert(groups@[gg]@[x1] == pre_grp[x1]);
                                assert(pre_grp[x1] < idx);
                            } else {
                                assert(groups@[gg]@[x1] == pre_grp[x1]);
                                assert(groups@[gg]@[x2] == pre_grp[x2]);
                                assert(pre_groups[gg]@[x1] < pre_groups[gg]@[x2]);
                            }
                        } else {
                            assert(groups@[gg]@ == pre_groups[gg]@);
                            assert(pre_groups[gg]@[x1] < pre_groups[gg]@[x2]);
                        }
                    }
                    assert forall|g1: int, g2: int, x: int|
                        #![trigger groups@[g1], groups@[g2]@[x]]
                        0 <= g1 < g2 < groups@.len() && 0 <= x < groups@[g2]@.len()
                            implies rejected_by(
                        issues@,
                        thr,
                        groups@[g1]@,
                        groups@[g2]@[x],
                    ) by {
                        let cand = groups@[g2]@[x];
                        if g2 == cg as int && x == groups@[g2]@.len() - 1 {
                            // The freshly joined member was rejected by every
                            // earlier group during the scan.
                            assert(cand == idx as usize);
                            assert(rejected_by(issues@, thr, pre_groups[g1]@, idx));
                            assert(groups@[g1]@ == pre_groups[g1]@);
                        } else {
                            let ghost old_cand = if g2 == cg as int {
                                pre_grp[x]
                            } else {
                                pre_groups[g2]@[x]
                            };
                            assert(cand == old_cand);
                            assert(rejected_by(issues@, thr, pre_groups[g1]@, old_cand));
                            if g1 == cg as int {
                                let y = choose|y: int|
                                    0 <= y < pre_groups[g1]@.len() && #[trigger] pre_groups[g1]@[y]
                                        < old_cand && !spec_accepts(
                                        issues@[old_cand as int].item.snippet@,
                                        issues@[pre_groups[g1]@[y] as int].item.snippet@,
                                        thr,
                                    );
                                assert(groups@[g1]@[y] == pre_groups[g1]@[y]);
                                assert(rejected_by(issues@, thr, groups@[g1]@, cand));
                            } else {
                                assert(groups@[g1]@ == pre_groups[g1]@);
                            }
                        }
                    }
                }
            },
            None => {
                let ghost pre_groups = groups@;
                let mut grp: Vec<usize> = Vec::new();
                grp.push(idx);
                groups.push(grp);
                proof {
                    assert(groups@[groups@.len() - 1]@ =~= seq![idx as usize]);
                    assert forall|gg: int|
                        0 <= gg < groups@.len() implies group_coherent(
                        issues@,
                        #[trigger] groups@[gg]@,
                        thr,
                    ) by {
                        if gg < pre_groups.len() {
                            assert(groups@[gg]@ == pre_groups[gg]@);
                            assert(group_coherent(issues@, pre_groups[gg]@, thr));
                        } else {
                            assert(groups@[gg]@.len() == 1);
                        }
                    }
                    assert forall|i: int|
                        0 <= i < idx + 1 implies #[trigger] placed(groups@, i as usize) by {
                        if i < idx {
                            assert(placed(pre_groups, i as usize));
                            let (gg, x) = choose|gg: int, x: int|
                                0 <= gg < pre_groups.len() && 0 <= x < pre_groups[gg]@.len()
                                    && #[trigger] pre_groups[gg]@[x] == i as usize;
                            assert(groups@[gg]@[x] == i as usize);
                        } else {
                            assert(groups@[groups@.len() - 1]@[0] == idx as usize);
                        }
                    }
                    assert forall|gg: int, x1: int, x2: int|
                        0 <= gg < groups@.len() && 0 <= x1 < x2 < groups@[gg]@.len()
                            implies #[trigger] groups@[gg]@[x1] < #[trigger] groups@[gg]@[x2] by {
                        if gg < pre_groups.len() {
                            assert(groups@[gg]@ == pre_groups[gg]@);
                            assert(pre_groups[gg]@[x1] < pre_groups[gg]@[x2]);
                        }
                    }
                    assert forall|g1: int, g2: int, x: int|
                        #![trigger groups@[g1], groups@[g2]@[x]]
                        0 <= g1 < g2 < groups@.len() && 0 <= x < groups@[g2]@.len()
                            implies rejected_by(
                        issues@,
                        thr,
                        groups@[g1]@,
                        groups@[g2]@[x],
                    ) by {
                        assert(groups@[g1]@ == pre_groups[g1]@);
                        if g2 == groups@.len() - 1 {
                            assert(groups@[g2]@[x] == idx as usize);
                            assert(rejected_by(issues@, thr, pre_groups[g1]@, idx));
                        } else {
                            assert(groups@[g2]@ == pre_groups[g2]@);
                            assert(rejected_by(issues@, thr, pre_groups[g1]@, pre_groups[g2]@[x]));
                        }
                    }
                }
            },
        }
        idx += 1;
    }
    proof {
        let gv = gview(groups@);
        assert forall|g: int| 0 <= g < gv.len() implies (#[trigger] gv[g]).len() >= 1 by {
            assert(gv[g] == groups@[g]@);
        }
        assert(valid_clustering(issues@, thr, gv)) by {
            assert forall|g: int, x: int|
                0 <= g < gv.len() && 0 <= x < gv[g].len() implies #[trigger] gv[g][x]
                < issues@.len() by {
                assert(gv[g] == groups@[g]@);
            }
            assert forall|g: int, x1: int, x2: int|
                0 <= g < gv.len() && 0 <= x1 < x2 < gv[g].len() implies #[trigger] gv[g][x1]
                < #[trigger] gv[g][x2] by {
                assert(gv[g] == groups@[g]@);
            }
            assert forall|g1: int, x1: int, g2: int, x2: int|
                0 <= g1 < gv.len() && 0 <= x1 < gv[g1].len() && 0 <= g2 < gv.len() && 0 <= x2
                    < gv[g2].len() && (g1 != g2 || x1 != x2) implies #[trigger] gv[g1][x1]
                != #[trigger] gv[g2][x2] by {
                assert(gv[g1] == groups@[g1]@ && gv[g2] == groups@[g2]@);
            }
            assert forall|i2: int|
                0 <= i2 < issues@.len() implies #[trigger] placed_in(gv, i2 as usize) by {
                assert(placed(groups@, i2 as usize));
                let (gg, x) = choose|gg: int, x: int|
                    0 <= gg < groups@.len() && 0 <= x < groups@[gg]@.len()
                        && #[trigger] groups@[gg]@[x] == i2 as usize;
                assert(gv[gg][x] == i2 as usize);
            }
            assert forall|g: int| 0 <= g < gv.len() implies group_coherent(
                issues@,
                #[trigger] gv[g],
                thr,
            ) by {
                assert(gv[g] == groups@[g]@);
            }
            assert forall|g1: int, g2: int, x: int|
                #![trigger gv[g1], gv[g2][x]]
                0 <= g1 < g2 < gv.len() && 0 <= x < gv[g2].len() implies rejected_by(
                issues@,
                thr,
                gv[g1],
                gv[g2][x],
            ) by {
                assert(gv[g1] == groups@[g1]@ && gv[g2] == groups@[g2]@);
                assert(rejected_by(issues@, thr, groups@[g1]@, groups@[g2]@[x]));
            }
        }
    }
    groups
}


/// Whether the similarity row references one of the given findings.
pub open spec fn row_from_issues(row: SimilarityInfo, issues: Seq<InDatabase<Issue>>) -> bool {
    exists|j: int| 0 <= j < issues.len() && row.issue_id == (#[trigger] issues[j]).id
}

/// One step of the group-identifier fold.
pub open spec fn hash_id_step(h: u64, id: i64) -> u64 {
    vstd::wrapping::u64_specs::wrapping_mul(h ^ (id as u64), 0x100000001b3)
}

/// The group identifier folded over the member ids from position `k` on.
pub open spec fn spec_group_hash_from(h: u64, ids: Seq<i64>, k: int) -> u64
    decreases ids.len() - k,
{
    if k < 0 || k >= ids.len() {
        h
    } else {
        spec_group_hash_from(hash_id_step(h, ids[k]), ids, k + 1)
    }
}

/// The group identifier of a member id list.
pub open spec fn spec_group_hash(ids: Seq<i64>) -> u64 {
    spec_group_hash_from(0xcbf29ce484222325, ids, 0)
}

/// The 64-bit group identifier: a fold over the member finding ids in
/// the given order.
pub fn group_hash(ids: &Vec<i64>) -> (r: u64)
    requires
        forall|i: int| 0 <= i < ids@.len() ==> 0 <= #[trigger] ids@[i],
    ensures
        r == spec_group_hash(ids@),
{
    let mut h: u64 = 0xcbf29ce484222325;
    let mut k: usize = 0;
    while k < ids.len()
        invariant
            k <= ids@.len(),
            forall|i: int| 0 <= i < ids@.len() ==> 0 <= #[trigger] ids@[i],
            spec_group_hash(ids@) == spec_group_hash_from(h, ids@, k as int),
        decreases ids@.len() - k,
    {
        h = (h ^ (ids[k] as u64)).wrapping_mul(0x100000001b3);
        k += 1;
    }
    h
}

/// Sort a list of pairwise distinct ids ascending, keeping exactly the
/// same ids.
pub fn sort_ids(v: &Vec<i64>) -> (r: Vec<i64>)
    requires
        forall|i: int, j: int| 0 <= i < j < v@.len() ==> #[trigger] v@[i] != #[trigger] v@[j],
    ensures
        r@.len() == v@.len(),
        forall|i: int, j: int| 0 <= i < j < r@.len() ==> #[trigger] r@[i] < #[trigger] r@[j],
        forall|x: i64| #[trigger] r@.contains(x) == v@.contains(x),
{
    let mut r: Vec<i64> = Vec::new();
    let mut k: usize = 0;
    while k < v.len()
        invariant
            k <= v@.len(),
            r@.len() == k,
            forall|i: int, j: int| 0 <= i < j < v@.len() ==> #[trigger] v@[i] != #[trigger] v@[j],
            forall|i: int, j: int| 0 <= i < j < r@.len() ==> #[trigger] r@[i] < #[trigger] r@[j],
            forall|x: i64| #[trigger] r@.contains(x) == v@.subrange(0, k as int).contains(x),
        decreases v@.len() - k,
    {
        let x = v[k];
        proof {
            assert(!v@.subrange(0, k as int).contains(x)) by {
                if v@.subrange(0, k as int).contains(x) {
                    let w = choose|w: int|
                        0 <= w < k as int && v@.subrange(0, k as int)[w] == x;
                    assert(v@[w] == v@[k as int]);
                }
            }
            assert(!r@.contains(x));
        }
        let mut pos: usize = 0;
        while pos < r.len() && r[pos] < x
            invariant
                pos <= r@.len(),
                forall|i: int| 0 <= i < pos ==> #[trigger] r@[i] < x,
            decreases r@.len() - pos,
        {
            pos += 1;
        }
        proof {
            if pos < r@.len() {
                assert(r@[pos as int] >= x);
                assert(r@[pos as int] != x) by {
                    if r@[pos as int] == x {
                        assert(r@.contains(x));
                    }
                }
            }
        }
        let ghost pre = r@;
        r.insert(pos, x);
        proof {
            assert forall|i: int, j: int| 0 <= i < j < r@.len() implies #[trigger] r@[i]
                < #[trigger] r@[j] by {
                let gi = if i < pos { pre[i] } else if i == pos { x } else { pre[i - 1] };
                let gj = if j < pos { pre[j] } else if j == pos { x } else { pre[j - 1] };
                assert(r@[i] == gi && r@[j] == gj);
                if i < pos && j == pos {
                    assert(pre[i] < x);
                } else if i == pos && j > pos {
                    assert(pre[j - 1] > x) by {
                        assert(pre[pos as int] > x);
                        if j - 1 > pos {
                            assert(pre[pos as int] < pre[j - 1]);
                        }
                    }
                } else if i < pos && j > pos {
                    assert(pre[i] < x);
                    assert(pre[j - 1] > x) by {
                        assert(pre[pos as int] > x);
                        if j - 1 > pos {
                            assert(pre[pos as int] < pre[j - 1]);
                        }
                    }
                }
            }
            let cur = v@.subrange(0, k as int + 1);
            assert(cur.drop_last() =~= v@.subrange(0, k as int));
            assert(cur.last() == x);
            assert forall|y: i64| #[trigger] r@.contains(y) == cur.contains(y) by {
                if r@.contains(y) {
                    let w = choose|w: int| 0 <= w < r@.len() && r@[w] == y;
                    if w == pos {
                        assert(cur[cur.len() - 1] == y);
                        assert(cur.contains(y));
                    } else {
                        let wp = if w < pos { w } else { w - 1 };
                        assert(pre[wp] == y);
                        assert(pre.contains(y));
                        assert(v@.subrange(0, k as int).contains(y));
                        let u = choose|u: int|
                            0 <= u < k as int && v@.subrange(0, k as int)[u] == y;
                        assert(cur[u] == y);
                        assert(cur.contains(y));
                    }
                }
                if cur.contains(y) {
                    let u = choose|u: int| 0 <= u < cur.len() && cur[u] == y;
                    if u == cur.len() - 1 {
                        assert(r@[pos as int] == y);
                        assert(r@.contains(y));
                    } else {
                        assert(v@.subrange(0, k as int)[u] == y);
                        assert(v@.subrange(0, k as int).contains(y));
                        assert(pre.contains(y));
                        let w = choose|w: int| 0 <= w < pre.len() && pre[w] == y;
                        let w2 = if w < pos { w } else { w + 1 };
                        assert(r@[w2] == y);
                        assert(r@.contains(y));
                    }
                }
            }
        }
        k += 1;
    }
    proof {
        assert(v@.subrange(0, v@.len() as int) =~= v@);
    }
    r
}

/// The member finding ids of a group, in member order.
pub open spec fn cluster_ids(issues: Seq<InDatabase<Issue>>, group: Seq<usize>) -> Seq<i64> {
    Seq::new(group.len(), |x: int| issues[group[x] as int].id)
}

/// `ids` is the ascending-sorted arrangement of the id list `of`.
pub open spec fn sorted_ids_of(ids: Seq<i64>, of: Seq<i64>) -> bool {
    &&& ids.len() == of.len()
    &&& forall|i: int, j: int| 0 <= i < j < ids.len() ==> #[trigger] ids[i] < #[trigger] ids[j]
    &&& forall|x: i64| #[trigger] ids.contains(x) == of.contains(x)
}

/// Whether some similarity row from `lo` on carries exactly this value.
pub open spec fn row_stored(
    sims: Seq<InDatabase<SimilarityInfo>>,
    lo: int,
    row: SimilarityInfo,
) -> bool {
    exists|i: int| lo <= i < sims.len() && (#[trigger] sims[i]).item == row
}

/// Every member id is stored under the group identifier of `ids`.
pub open spec fn group_rows_stored(
    sims: Seq<InDatabase<SimilarityInfo>>,
    lo: int,
    ids: Seq<i64>,
) -> bool {
    forall|x: int|
        0 <= x < ids.len() ==> row_stored(
            sims,
            lo,
            SimilarityInfo { similarity_hash: spec_group_hash(ids), issue_id: #[trigger] ids[x] },
        )
}

/// The cluster is stored: its member ids, sorted ascending, all sit in
/// rows under the group identifier computed from that sorted list.
pub open spec fn group_is_stored(
    sims: Seq<InDatabase<SimilarityInfo>>,
    lo: int,
    issues: Seq<InDatabase<Issue>>,
    group: Seq<usize>,
) -> bool {
    exists|ids: Seq<i64>|
        #[trigger] sorted_ids_of(ids, cluster_ids(issues, group)) && group_rows_stored(
            sims,
            lo,
            ids,
        )
}

/// Whether some row of the table carries the hash `h`.
pub open spec fn has_hash(sims: Seq<InDatabase<SimilarityInfo>>, h: u64) -> bool {
    exists|i: int| 0 <= i < sims.len() && (#[trigger] sims[i]).item.similarity_hash == h
}

/// The cluster's group identifier was already taken when its turn came:
/// by a pre-existing row, or by an earlier stored cluster that collides
/// on the same hash. Such a cluster is skipped rather than merged into a
/// foreign group.
pub open spec fn group_hash_taken(
    old_sims: Seq<InDatabase<SimilarityInfo>>,
    issues: Seq<InDatabase<Issue>>,
    groups: Seq<Seq<usize>>,
    g: int,
) -> bool {
    exists|ids: Seq<i64>|
        #[trigger] sorted_ids_of(ids, cluster_ids(issues, groups[g])) && (has_hash(
            old_sims,
            spec_group_hash(ids),
        ) || exists|g2: int, ids2: Seq<i64>|
            0 <= g2 < g && groups[g2].len() >= 2 && #[trigger] sorted_ids_of(
                ids2,
                cluster_ids(issues, groups[g2]),
            ) && spec_group_hash(ids2) == spec_group_hash(ids))
}

/// The row belongs to one of the first `bound` clusters with at least
/// two members: its hash is that cluster's group identifier and its
/// finding one of its members.
pub open spec fn new_row_of(
    groups: Seq<Seq<usize>>,
    issues: Seq<InDatabase<Issue>>,
    row: SimilarityInfo,
    bound: int,
) -> bool {
    exists|g: int, ids: Seq<i64>|
        0 <= g < bound && g < groups.len() && groups[g].len() >= 2 && #[trigger] sorted_ids_of(
            ids,
            cluster_ids(issues, groups[g]),
        ) && row.similarity_hash == spec_group_hash(ids) && ids.contains(row.issue_id)
}

/// Stored rows stay stored when rows are only appended.
pub proof fn lemma_group_rows_stored_mono(
    sims1: Seq<InDatabase<SimilarityInfo>>,
    sims2: Seq<InDatabase<SimilarityInfo>>,
    lo: int,
    ids: Seq<i64>,
)
    requires
        group_rows_stored(sims1, lo, ids),
        sims1.len() <= sims2.len(),
        forall|i: int| 0 <= i < sims1.len() ==> #[trigger] sims2[i] == sims1[i],
        0 <= lo,
    ensures
        group_rows_stored(sims2, lo, ids),
{
    assert forall|x: int| 0 <= x < ids.len() implies row_stored(
        sims2,
        lo,
        SimilarityInfo { similarity_hash: spec_group_hash(ids), issue_id: #[trigger] ids[x] },
    ) by {
        let row = SimilarityInfo { similarity_hash: spec_group_hash(ids), issue_id: ids[x] };
        assert(row_stored(sims1, lo, row));
        let i = choose|i: int| lo <= i < sims1.len() && (#[trigger] sims1[i]).item == row;
        assert(sims2[i].item == row);
    }
}

/// In a strictly ascending sequence the entry at `i` is at least `i`.
pub proof fn lemma_ascending_ge(s: Seq<usize>, i: int)
    requires
        forall|x1: int, x2: int| 0 <= x1 < x2 < s.len() ==> #[trigger] s[x1] < #[trigger] s[x2],
        0 <= i < s.len(),
    ensures
        s[i] >= i,
    decreases i,
{
    if i > 0 {
        lemma_ascending_ge(s, i - 1);
        assert(s[i - 1] < s[i]);
    }
}

/// Whether the table holds a row with hash `h`.
fn has_sim_hash(v: &Vec<InDatabase<SimilarityInfo>>, h: u64) -> (r: bool)
    ensures
        r == has_hash(v@, h),
{
    let mut k: usize = 0;
    while k < v.len()
        invariant
            k <= v@.len(),
            forall|i: int| 0 <= i < k ==> (#[trigger] v@[i]).item.similarity_hash != h,
        decreases v@.len() - k,
    {
        if v[k].item.similarity_hash == h {
            return true;
        }
        k += 1;
    }
    false
}

/// Appending one fresh-hash block of sorted member rows extends the
/// similarity table's invariants: the block realizes its cluster's
/// storage, every row still belongs to a stored cluster, same-hash rows
/// remain pairwise accepted, and no two rows coincide.
#[verifier::rlimit(100)]
#[verifier::spinoff_prover]
proof fn lemma_block_extends(
    pre: Seq<InDatabase<SimilarityInfo>>,
    cur: Seq<InDatabase<SimilarityInfo>>,
    old_len: int,
    issues: Seq<InDatabase<Issue>>,
    thr: Threshold,
    ggroups: Seq<Seq<usize>>,
    g: int,
    sorted: Seq<i64>,
    h: u64,
)
    requires
        0 <= old_len <= pre.len(),
        cur.len() == pre.len() + sorted.len(),
        forall|i: int| 0 <= i < pre.len() ==> #[trigger] cur[i] == pre[i],
        forall|x: int|
            0 <= x < sorted.len() ==> #[trigger] cur[pre.len() + x].item == (SimilarityInfo {
                similarity_hash: h,
                issue_id: sorted[x],
            }),
        !has_hash(pre, h),
        h == spec_group_hash(sorted),
        0 <= g < ggroups.len(),
        ggroups[g].len() >= 2,
        sorted_ids_of(sorted, cluster_ids(issues, ggroups[g])),
        valid_clustering(issues, thr, ggroups),
        forall|i: int, j: int|
            0 <= i < j < issues.len() ==> #[trigger] issues[i].id != #[trigger] issues[j].id,
        forall|i: int|
            old_len <= i < pre.len() ==> new_row_of(ggroups, issues, (#[trigger] pre[i]).item, g),
        forall|i: int, j: int|
            #![trigger pre[i], pre[j]]
            old_len <= i < pre.len() && old_len <= j < pre.len() && pre[i].item.similarity_hash
                == pre[j].item.similarity_hash && pre[i].item.issue_id != pre[j].item.issue_id
                ==> spec_accepts(
                snippet_of(issues, pre[i].item.issue_id),
                snippet_of(issues, pre[j].item.issue_id),
                thr,
            ),
        forall|i: int, j: int|
            #![trigger pre[i], pre[j]]
            old_len <= i < j < pre.len() ==> pre[i].item != pre[j].item,
    ensures
        group_rows_stored(cur, old_len, sorted),
        forall|i: int|
            old_len <= i < cur.len() ==> new_row_of(ggroups, issues, (#[trigger] cur[i]).item, g + 1),
        forall|i: int, j: int|
            #![trigger cur[i], cur[j]]
            old_len <= i < cur.len() && old_len <= j < cur.len() && cur[i].item.similarity_hash
                == cur[j].item.similarity_hash && cur[i].item.issue_id != cur[j].item.issue_id
                ==> spec_accepts(
                snippet_of(issues, cur[i].item.issue_id),
                snippet_of(issues, cur[j].item.issue_id),
                thr,
            ),
        forall|i: int, j: int|
            #![trigger cur[i], cur[j]]
            old_len <= i < j < cur.len() ==> cur[i].item != cur[j].item,
{
    lemma_block_pairs(pre, cur, old_len, issues, thr, ggroups, g, sorted, h);
    let grp = ggroups[g];
    // Which cluster member each stored id comes from.
    assert forall|a: i64| #[trigger] sorted.contains(a) implies exists|w: int|
        0 <= w < grp.len() && issues[#[trigger] grp[w] as int].id == a by {
        assert(cluster_ids(issues, grp).contains(a));
        let w = choose|w: int|
            0 <= w < cluster_ids(issues, grp).len() && cluster_ids(issues, grp)[w] == a;
        assert(issues[grp[w] as int].id == a);
    }
    // Pairwise acceptance of distinct stored member ids.
    assert forall|a: i64, b: i64|
        #[trigger] sorted.contains(a) && #[trigger] sorted.contains(b) && a != b
            implies spec_accepts(snippet_of(issues, a), snippet_of(issues, b), thr) by {
        let wa = choose|w: int| 0 <= w < grp.len() && issues[#[trigger] grp[w] as int].id == a;
        let wb = choose|w: int| 0 <= w < grp.len() && issues[#[trigger] grp[w] as int].id == b;
        assert(wa != wb);
        assert(group_coherent(issues, grp, thr));
        assert(spec_accepts(
            issues[grp[wa] as int].item.snippet@,
            issues[grp[wb] as int].item.snippet@,
            thr,
        ));
        assert(crate::db::row_by_id(issues, a) == issues[grp[wa] as int]) by {
            let v = choose|v: int| 0 <= v < issues.len() && #[trigger] issues[v].id == a;
            assert(issues[grp[wa] as int].id == a);
            if v != grp[wa] as int {
                assert(issues[v].id != issues[grp[wa] as int].id);
            }
        }
        assert(crate::db::row_by_id(issues, b) == issues[grp[wb] as int]) by {
            let v = choose|v: int| 0 <= v < issues.len() && #[trigger] issues[v].id == b;
            assert(issues[grp[wb] as int].id == b);
            if v != grp[wb] as int {
                assert(issues[v].id != issues[grp[wb] as int].id);
            }
        }
    }
    assert forall|x2: int| 0 <= x2 < sorted.len() implies row_stored(
        cur,
        old_len,
        SimilarityInfo { similarity_hash: spec_group_hash(sorted), issue_id: #[trigger] sorted[x2] },
    ) by {
        assert(cur[pre.len() + x2].item == (SimilarityInfo {
            similarity_hash: h,
            issue_id: sorted[x2],
        }));
    }
    assert forall|i: int|
        old_len <= i < cur.len() implies new_row_of(
        ggroups,
        issues,
        (#[trigger] cur[i]).item,
        g + 1,
    ) by {
        if i < pre.len() {
            assert(cur[i] == pre[i]);
            assert(new_row_of(ggroups, issues, pre[i].item, g));
        } else {
            let x2 = i - pre.len();
            assert(cur[pre.len() + x2].item == (SimilarityInfo {
                similarity_hash: h,
                issue_id: sorted[x2],
            }));
            assert(sorted.contains(sorted[x2]));
            assert(new_row_of(ggroups, issues, cur[i].item, g + 1));
        }
    }
}

/// Same-hash pairs among the extended rows stay pairwise accepted, and no
/// two extended rows coincide: the fresh hash separates the new block.
#[verifier::rlimit(100)]
#[verifier::spinoff_prover]
proof fn lemma_block_pairs(
    pre: Seq<InDatabase<SimilarityInfo>>,
    cur: Seq<InDatabase<SimilarityInfo>>,
    old_len: int,
    issues: Seq<InDatabase<Issue>>,
    thr: Threshold,
    ggroups: Seq<Seq<usize>>,
    g: int,
    sorted: Seq<i64>,
    h: u64,
)
    requires
        0 <= old_len <= pre.len(),
        cur.len() == pre.len() + sorted.len(),
        forall|i: int| 0 <= i < pre.len() ==> #[trigger] cur[i] == pre[i],
        forall|x: int|
            0 <= x < sorted.len() ==> #[trigger] cur[pre.len() + x].item == (SimilarityInfo {
                similarity_hash: h,
                issue_id: sorted[x],
            }),
        !has_hash(pre, h),
        h == spec_group_hash(sorted),
        0 <= g < ggroups.len(),
        ggroups[g].len() >= 2,
        sorted_ids_of(sorted, cluster_ids(issues, ggroups[g])),
        valid_clustering(issues, thr, ggroups),
        forall|i: int, j: int|
            0 <= i < j < issues.len() ==> #[trigger] issues[i].id != #[trigger] issues[j].id,
        forall|i: int, j: int|
            #![trigger pre[i], pre[j]]
            old_len <= i < pre.len() && old_len <= j < pre.len() && pre[i].item.similarity_hash
                == pre[j].item.similarity_hash && pre[i].item.issue_id != pre[j].item.issue_id
                ==> spec_accepts(
                snippet_of(issues, pre[i].item.issue_id),
                snippet_of(issues, pre[j].item.issue_id),
                thr,
            ),
        forall|i: int, j: int|
            #![trigger pre[i], pre[j]]
            old_len <= i < j < pre.len() ==> pre[i].item != pre[j].item,
    ensures
        forall|i: int, j: int|
            #![trigger cur[i], cur[j]]
            old_len <= i < cur.len() && old_len <= j < cur.len() && cur[i].item.similarity_hash
                == cur[j].item.similarity_hash && cur[i].item.issue_id != cur[j].item.issue_id
                ==> spec_accepts(
                snippet_of(issues, cur[i].item.issue_id),
                snippet_of(issues, cur[j].item.issue_id),
                thr,
            ),
        forall|i: int, j: int|
            #![trigger cur[i], cur[j]]
            old_len <= i < j < cur.len() ==> cur[i].item != cur[j].item,
{
    let grp = ggroups[g];
    assert forall|a: i64| #[trigger] sorted.contains(a) implies exists|w: int|
        0 <= w < grp.len() && issues[#[trigger] grp[w] as int].id == a by {
        assert(cluster_ids(issues, grp).contains(a));
        let w = choose|w: int|
            0 <= w < cluster_ids(issues, grp).len() && cluster_ids(issues, grp)[w] == a;
        assert(issues[grp[w] as int].id == a);
    }
    assert forall|a: i64, b: i64|
        #[trigger] sorted.contains(a) && #[trigger] sorted.contains(b) && a != b
            implies spec_accepts(snippet_of(issues, a), snippet_of(issues, b), thr) by {
        let wa = choose|w: int| 0 <= w < grp.len() && issues[#[trigger] grp[w] as int].id == a;
        let wb = choose|w: int| 0 <= w < grp.len() && issues[#[trigger] grp[w] as int].id == b;
        assert(wa != wb);
        assert(group_coherent(issues, grp, thr));
        assert(spec_accepts(
            issues[grp[wa] as int].item.snippet@,
            issues[grp[wb] as int].item.snippet@,
            thr,
        ));
        assert(crate::db::row_by_id(issues, a) == issues[grp[wa] as int]) by {
            let v = choose|v: int| 0 <= v < issues.len() && #[trigger] issues[v].id == a;
            assert(issues[grp[wa] as int].id == a);
            if v != grp[wa] as int {
                assert(issues[v].id != issues[grp[wa] as int].id);
            }
        }
        assert(crate::db::row_by_id(issues, b) == issues[grp[wb] as int]) by {
            let v = choose|v: int| 0 <= v < issues.len() && #[trigger] issues[v].id == b;
            assert(issues[grp[wb] as int].id == b);
            if v != grp[wb] as int {
                assert(issues[v].id != issues[grp[wb] as int].id);
            }
        }
    }
    assert forall|i: int|
        old_len <= i < pre.len() implies (#[trigger] pre[i]).item.similarity_hash != h by {
        if pre[i].item.similarity_hash == h {
            assert(has_hash(pre, h));
        }
    }
    assert forall|i: int, j: int|
        #![trigger cur[i], cur[j]]
        old_len <= i < cur.len() && old_len <= j < cur.len() && cur[i].item.similarity_hash
            == cur[j].item.similarity_hash && cur[i].item.issue_id != cur[j].item.issue_id
            implies spec_accepts(
        snippet_of(issues, cur[i].item.issue_id),
        snippet_of(issues, cur[j].item.issue_id),
        thr,
    ) by {
        if i < pre.len() && j < pre.len() {
            assert(cur[i] == pre[i] && cur[j] == pre[j]);
        } else if i >= pre.len() && j >= pre.len() {
            let xi = i - pre.len();
            let xj = j - pre.len();
            assert(cur[pre.len() + xi].item == (SimilarityInfo {
                similarity_hash: h,
                issue_id: sorted[xi],
            }));
            assert(cur[pre.len() + xj].item == (SimilarityInfo {
                similarity_hash: h,
                issue_id: sorted[xj],
            }));
            assert(sorted.contains(sorted[xi]));
            assert(sorted.contains(sorted[xj]));
        } else if i < pre.len() {
            assert(cur[i] == pre[i]);
            assert(pre[i].item.similarity_hash != h);
            let xj = j - pre.len();
            assert(cur[pre.len() + xj].item == (SimilarityInfo {
                similarity_hash: h,
                issue_id: sorted[xj],
            }));
        } else {
            assert(cur[j] == pre[j]);
            assert(pre[j].item.similarity_hash != h);
            let xi = i - pre.len();
            assert(cur[pre.len() + xi].item == (SimilarityInfo {
                similarity_hash: h,
                issue_id: sorted[xi],
            }));
        }
    }
    assert forall|i: int, j: int|
        #![trigger cur[i], cur[j]]
        old_len <= i < j < cur.len() implies cur[i].item != cur[j].item by {
        if i < pre.len() && j < pre.len() {
            assert(cur[i] == pre[i] && cur[j] == pre[j]);
        } else if i >= pre.len() && j >= pre.len() {
            let xi = i - pre.len();
            let xj = j - pre.len();
            assert(cur[pre.len() + xi].item == (SimilarityInfo {
                similarity_hash: h,
                issue_id: sorted[xi],
            }));
            assert(cur[pre.len() + xj].item == (SimilarityInfo {
                similarity_hash: h,
                issue_id: sorted[xj],
            }));
            assert(sorted[xi] < sorted[xj]);
        } else {
            assert(cur[i] == pre[i]);
            assert(pre[i].item.similarity_hash != h);
            let xj = j - pre.len();
            assert(cur[pre.len() + xj].item == (SimilarityInfo {
                similarity_hash: h,
                issue_id: sorted[xj],
            }));
        }
    }
}

/// Cluster the given findings by snippet similarity and store every
/// non-singleton group, each under the group identifier folded over its
/// member ids in ascending order. Existing rows stay put; a cluster whose
/// identifier is already taken is skipped whole; and the id counter fails
/// loudly rather than overflow.
#[verifier::rlimit(100)]
#[verifier::spinoff_prover]
pub fn calculate_similarities(issues: &Vec<InDatabase<Issue>>, thr: Threshold, db: &mut Database) -> (r:
    Result<(), crate::parse::CatalogError>)
    requires
        old(db).wf(),
        forall|i: int|
            0 <= i < issues@.len() ==> has_id(old(db).issues@, (#[trigger] issues@[i]).id),
        forall|i: int, j: int|
            0 <= i < j < issues@.len() ==> #[trigger] issues@[i].id != #[trigger] issues@[j].id,
        forall|i: int| 0 <= i < issues@.len() ==> (#[trigger] issues@[i]).item.snippet@.len()
            < usize::MAX,
    ensures
        final(db).wf(),
        final(db).jobs == old(db).jobs,
        final(db).builds == old(db).builds,
        final(db).runs == old(db).runs,
        final(db).artifacts == old(db).artifacts,
        final(db).issues == old(db).issues,
        final(db).tags == old(db).tags,
        old(db).similarities@.len() <= final(db).similarities@.len(),
        forall|i: int|
            0 <= i < old(db).similarities@.len() ==> #[trigger] final(db).similarities@[i] == old(
                db,
            ).similarities@[i],
        forall|i: int|
            old(db).similarities@.len() <= i < final(db).similarities@.len()
                ==> #[trigger] row_from_issues(final(db).similarities@[i].item, issues@),
        final(db).next_id - old(db).next_id == final(db).similarities@.len() - old(
            db,
        ).similarities@.len(),
        forall|i: int, j: int|
            #![trigger final(db).similarities@[i], final(db).similarities@[j]]
            old(db).similarities@.len() <= i < final(db).similarities@.len() && old(
                db,
            ).similarities@.len() <= j < final(db).similarities@.len()
                && final(db).similarities@[i].item.similarity_hash
                == final(db).similarities@[j].item.similarity_hash
                && final(db).similarities@[i].item.issue_id
                != final(db).similarities@[j].item.issue_id ==> spec_accepts(
                snippet_of(issues@, final(db).similarities@[i].item.issue_id),
                snippet_of(issues@, final(db).similarities@[j].item.issue_id),
                thr,
            ),
        forall|i: int, j: int|
            #![trigger final(db).similarities@[i], final(db).similarities@[j]]
            old(db).similarities@.len() <= i < j < final(db).similarities@.len()
                ==> final(db).similarities@[i].item != final(db).similarities@[j].item,
        r is Err ==> i64::MAX - final(db).next_id < issues@.len(),
        exists|groups: Seq<Seq<usize>>|
            {
                &&& #[trigger] valid_clustering(issues@, thr, groups)
                &&& r is Ok ==> forall|g: int|
                    0 <= g < groups.len() && (#[trigger] groups[g]).len() >= 2 ==> group_is_stored(
                        final(db).similarities@,
                        old(db).similarities@.len() as int,
                        issues@,
                        groups[g],
                    ) || group_hash_taken(old(db).similarities@, issues@, groups, g)
                &&& forall|i: int|
                    old(db).similarities@.len() <= i < final(db).similarities@.len()
                        ==> new_row_of(
                        groups,
                        issues@,
                        (#[trigger] final(db).similarities@[i]).item,
                        groups.len() as int,
                    )
            },
{
    let groups = cluster_issues(issues, thr);
    let ghost ggroups = gview(groups@);
    let ghost old_len = old(db).similarities@.len() as int;
    proof {
        assert(valid_clustering(issues@, thr, ggroups));
    }
    let mut g: usize = 0;
    while g < groups.len()
        invariant
            db.wf(),
            forall|i: int|
                0 <= i < issues@.len() ==> has_id(old(db).issues@, (#[trigger] issues@[i]).id),
            forall|i: int, j: int|
                0 <= i < j < issues@.len() ==> #[trigger] issues@[i].id != #[trigger] issues@[j].id,
            ggroups == gview(groups@),
            valid_clustering(issues@, thr, ggroups),
            forall|gg: int, x: int|
                0 <= gg < groups@.len() && 0 <= x < groups@[gg]@.len() ==> #[trigger] groups@[gg]@[x]
                    < issues@.len(),
            g <= groups@.len(),
            old_len == old(db).similarities@.len(),
            db.jobs == old(db).jobs,
            db.builds == old(db).builds,
            db.runs == old(db).runs,
            db.artifacts == old(db).artifacts,
            db.issues == old(db).issues,
            db.tags == old(db).tags,
            old(db).similarities@.len() <= db.similarities@.len(),
            db.next_id - old(db).next_id == db.similarities@.len() - old(db).similarities@.len(),
            forall|i: int|
                0 <= i < old(db).similarities@.len() ==> #[trigger] db.similarities@[i] == old(
                    db,
                ).similarities@[i],
            forall|i: int|
                old(db).similarities@.len() <= i < db.similarities@.len()
                    ==> #[trigger] row_from_issues(db.similarities@[i].item, issues@),
            forall|gp: int|
                0 <= gp < g && (#[trigger] ggroups[gp]).len() >= 2 ==> group_is_stored(
                    db.similarities@,
                    old_len,
                    issues@,
                    ggroups[gp],
                ) || group_hash_taken(old(db).similarities@, issues@, ggroups, gp),
            forall|i: int|
                old_len <= i < db.similarities@.len() ==> new_row_of(
                    ggroups,
                    issues@,
                    (#[trigger] db.similarities@[i]).item,
                    g as int,
                ),
            forall|i: int, j: int|
                #![trigger db.similarities@[i], db.similarities@[j]]
                old_len <= i < db.similarities@.len() && old_len <= j < db.similarities@.len()
                    && db.similarities@[i].item.similarity_hash
                    == db.similarities@[j].item.similarity_hash
                    && db.similarities@[i].item.issue_id != db.similarities@[j].item.issue_id
                    ==> spec_accepts(
                    snippet_of(issues@, db.similarities@[i].item.issue_id),
                    snippet_of(issues@, db.similarities@[j].item.issue_id),
                    thr,
                ),
            forall|i: int, j: int|
                #![trigger db.similarities@[i], db.similarities@[j]]
                old_len <= i < j < db.similarities@.len() ==> db.similarities@[i].item
                    != db.similarities@[j].item,
        decreases groups@.len() - g,
    {
        if groups[g].len() >= 2 {
            let mut ids: Vec<i64> = Vec::new();
            let mut x: usize = 0;
            while x < groups[g].len()
                invariant
                    g < groups@.len(),
                    x <= groups@[g as int]@.len(),
                    ids@.len() == x,
                    forall|gg: int, xx: int|
                        0 <= gg < groups@.len() && 0 <= xx < groups@[gg]@.len()
                            ==> #[trigger] groups@[gg]@[xx] < issues@.len(),
                    forall|i: int, j: int|
                        0 <= i < j < issues@.len() ==> #[trigger] issues@[i].id
                            != #[trigger] issues@[j].id,
                    forall|i: int|
                        0 <= i < x ==> #[trigger] ids@[i] == issues@[groups@[g as int]@[i] as int].id,
                decreases groups@[g as int]@.len() - x,
            {
                let member = groups[g][x];
                ids.push(issues[member].id);
                x += 1;
            }
            proof {
                assert(ids@ =~= cluster_ids(issues@, ggroups[g as int]));
                assert forall|i: int, j: int| 0 <= i < j < ids@.len() implies #[trigger] ids@[i]
                    != #[trigger] ids@[j] by {
                    let mi = groups@[g as int]@[i];
                    let mj = groups@[g as int]@[j];
                    assert(mi != mj);
                    if (mi as int) < (mj as int) {
                        assert(issues@[mi as int].id != issues@[mj as int].id);
                    } else {
                        assert(issues@[mj as int].id != issues@[mi as int].id);
                    }
                }
            }
            let sorted = sort_ids(&ids);
            proof {
                assert(sorted_ids_of(sorted@, cluster_ids(issues@, ggroups[g as int]))) by {
                    assert forall|a: int, b: int| 0 <= a < b < sorted@.len() implies
                        #[trigger] sorted@[a] < #[trigger] sorted@[b] by {}
                }
                assert forall|i: int| 0 <= i < sorted@.len() implies has_id(
                    db.issues@,
                    #[trigger] sorted@[i],
                ) && 0 <= sorted@[i] by {
                    assert(sorted@.contains(sorted@[i]));
                    assert(ids@.contains(sorted@[i]));
                    let w = choose|w: int| 0 <= w < ids@.len() && ids@[w] == sorted@[i];
                    assert(ids@[w] == issues@[groups@[g as int]@[w] as int].id);
                    assert(has_id(old(db).issues@, issues@[groups@[g as int]@[w] as int].id));
                    assert(ids_below(db.issues@, db.next_id));
                    let v = choose|v: int|
                        0 <= v < db.issues@.len() && #[trigger] db.issues@[v].id == sorted@[i];
                    assert(1 <= db.issues@[v].id);
                }
                assert forall|i: int, j: int| 0 <= i < j < sorted@.len() implies
                    #[trigger] sorted@[i] != #[trigger] sorted@[j] by {
                    assert(sorted@[i] < sorted@[j]);
                }
            }
            let h = group_hash(&sorted);
            if has_sim_hash(&db.similarities, h) {
                proof {
                    // The identifier is already taken: by an old row, or by
                    // an earlier stored cluster colliding on the hash.
                    let w = choose|w: int|
                        0 <= w < db.similarities@.len()
                            && (#[trigger] db.similarities@[w]).item.similarity_hash == h;
                    if w < old_len {
                        assert(db.similarities@[w] == old(db).similarities@[w]);
                        assert(has_hash(old(db).similarities@, h));
                        assert(group_hash_taken(old(db).similarities@, issues@, ggroups, g as int));
                    } else {
                        assert(new_row_of(ggroups, issues@, db.similarities@[w].item, g as int));
                        let (g2, ids2) = choose|g2: int, ids2: Seq<i64>|
                            0 <= g2 < g as int && g2 < ggroups.len() && ggroups[g2].len() >= 2
                                && #[trigger] sorted_ids_of(ids2, cluster_ids(issues@, ggroups[g2]))
                                && db.similarities@[w].item.similarity_hash == spec_group_hash(ids2)
                                && ids2.contains(db.similarities@[w].item.issue_id);
                        assert(spec_group_hash(ids2) == spec_group_hash(sorted@));
                        assert(group_hash_taken(old(db).similarities@, issues@, ggroups, g as int));
                    }
                    assert forall|gp: int|
                        0 <= gp < g + 1 && (#[trigger] ggroups[gp]).len() >= 2
                            implies group_is_stored(db.similarities@, old_len, issues@, ggroups[gp])
                        || group_hash_taken(old(db).similarities@, issues@, ggroups, gp) by {}
                    assert forall|i: int|
                        old_len <= i < db.similarities@.len() implies new_row_of(
                        ggroups,
                        issues@,
                        (#[trigger] db.similarities@[i]).item,
                        g as int + 1,
                    ) by {
                        assert(new_row_of(ggroups, issues@, db.similarities@[i].item, g as int));
                    }
                }
            } else {
                let room = i64::MAX - db.next_id;
                if (sorted.len() as u64) > (room as u64) {
                    proof {
                        let grp = ggroups[g as int];
                        assert forall|x1: int, x2: int|
                            0 <= x1 < x2 < grp.len() implies #[trigger] grp[x1]
                            < #[trigger] grp[x2] by {}
                        lemma_ascending_ge(grp, grp.len() - 1);
                        assert(grp[grp.len() - 1] < issues@.len());
                        assert(grp.len() <= issues@.len());
                        assert(sorted@.len() == grp.len());
                    }
                    return Err(crate::parse::CatalogError::IdsExhausted);
                }
                let ghost pre_sims = db.similarities@;
                db.insert_similarity_group(h, &sorted);
                proof {
                    lemma_block_extends(
                        pre_sims,
                        db.similarities@,
                        old_len,
                        issues@,
                        thr,
                        ggroups,
                        g as int,
                        sorted@,
                        h,
                    );
                    assert(group_is_stored(db.similarities@, old_len, issues@, ggroups[g as int]));
                    assert forall|gp: int|
                        0 <= gp < g + 1 && (#[trigger] ggroups[gp]).len() >= 2
                            implies group_is_stored(db.similarities@, old_len, issues@, ggroups[gp])
                        || group_hash_taken(old(db).similarities@, issues@, ggroups, gp) by {
                        if gp < g {
                            if group_is_stored(pre_sims, old_len, issues@, ggroups[gp]) {
                                let ids3 = choose|ids3: Seq<i64>|
                                    #[trigger] sorted_ids_of(
                                        ids3,
                                        cluster_ids(issues@, ggroups[gp]),
                                    ) && group_rows_stored(pre_sims, old_len, ids3);
                                lemma_group_rows_stored_mono(
                                    pre_sims,
                                    db.similarities@,
                                    old_len,
                                    ids3,
                                );
                                assert(group_is_stored(db.similarities@, old_len, issues@, ggroups[gp]));
                            }
                        }
                    }
                }
            }
        } else {
            proof {
                assert forall|gp: int|
                    0 <= gp < g + 1 && (#[trigger] ggroups[gp]).len() >= 2
                        implies group_is_stored(db.similarities@, old_len, issues@, ggroups[gp])
                    || group_hash_taken(old(db).similarities@, issues@, ggroups, gp) by {
                    assert(ggroups[g as int].len() == groups@[g as int]@.len());
                    assert(gp < g);
                }
                assert forall|i: int|
                    old_len <= i < db.similarities@.len() implies new_row_of(
                    ggroups,
                    issues@,
                    (#[trigger] db.similarities@[i]).item,
                    g as int + 1,
                ) by {
                    assert(new_row_of(ggroups, issues@, db.similarities@[i].item, g as int));
                }
            }
        }
        g += 1;
    }
    proof {
        assert(ggroups.len() == groups@.len());
        assert forall|i: int|
            old_len <= i < db.similarities@.len() implies new_row_of(
            ggroups,
            issues@,
            (#[trigger] db.similarities@[i]).item,
            ggroups.len() as int,
        ) by {
            assert(new_row_of(ggroups, issues@, db.similarities@[i].item, g as int));
        }
    }
    Ok(())
}

} // verus!
