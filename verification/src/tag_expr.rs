//! The predicate language over tags and severities: a parser with span
//! diagnostics, the generator expansion that distributes negation by
//! De Morgan's laws into positive-atomic rows, a compiler from rows to
//! run-selection SQL, and a direct evaluator against the cache.

use vstd::prelude::*;

use crate::config::Severity;
use crate::db::{has_id, issue_contained, row_by_id, Database, InDatabase, IssueInfo, TagInfo};
use vstd::string::StringExecFns;
use crate::parse::{regex_check, regex_match_once, regex_matches, regex_ok};

verus! {

/// An expression of the predicate language.
///
/// `TagSet` and `SeveritySet` are generators: they expand against the
/// known tag catalog into one `Tag` leaf per member. `Tag` and
/// `Severity` are leaves.
pub enum TagExpr {
    Not(Box<TagExpr>),
    And(Box<TagExpr>, Box<TagExpr>),
    Or(Box<TagExpr>, Box<TagExpr>),
    TagSet(Vec<u8>),
    SeveritySet(Severity),
    Tag(Vec<u8>),
    Severity(Severity),
}

/// Structural equality of two expressions up to byte-string views.
pub open spec fn expr_like(a: TagExpr, b: TagExpr) -> bool
    decreases a,
{
    match (a, b) {
        (TagExpr::Not(x), TagExpr::Not(y)) => expr_like(*x, *y),
        (TagExpr::And(l1, r1), TagExpr::And(l2, r2)) => expr_like(*l1, *l2) && expr_like(*r1, *r2),
        (TagExpr::Or(l1, r1), TagExpr::Or(l2, r2)) => expr_like(*l1, *l2) && expr_like(*r1, *r2),
        (TagExpr::TagSet(p), TagExpr::TagSet(q)) => p@ == q@,
        (TagExpr::SeveritySet(s), TagExpr::SeveritySet(t)) => s == t,
        (TagExpr::Tag(p), TagExpr::Tag(q)) => p@ == q@,
        (TagExpr::Severity(s), TagExpr::Severity(t)) => s == t,
        _ => false,
    }
}

/// Pointwise `expr_like` of two row lists.
pub open spec fn rows_like(a: Seq<TagExpr>, b: Seq<TagExpr>) -> bool {
    a.len() == b.len() && forall|i: int| 0 <= i < a.len() ==> expr_like(#[trigger] a[i], b[i])
}

/// The measure under which generator expansion terminates: negation
/// doubles, so pushing a negation inward strictly shrinks it.
pub open spec fn expr_weight(e: TagExpr) -> nat
    decreases e,
{
    match e {
        TagExpr::Not(i) => (2 * expr_weight(*i) + 1) as nat,
        TagExpr::And(l, r) => (expr_weight(*l) + expr_weight(*r) + 2) as nat,
        TagExpr::Or(l, r) => (expr_weight(*l) + expr_weight(*r) + 2) as nat,
        _ => 1,
    }
}

/// The `Tag` rows of the catalog members whose name matches (or, with
/// `invert`, does not match) the pattern, in declaration order from `i`.
pub open spec fn set_rows(
    tags: Seq<InDatabase<TagInfo>>,
    p: Seq<u8>,
    invert: bool,
    i: int,
) -> Seq<TagExpr>
    decreases tags.len() - i,
{
    if i < 0 || i >= tags.len() {
        Seq::empty()
    } else {
        let rest = set_rows(tags, p, invert, i + 1);
        if regex_matches(p, tags[i].item.name@) != invert {
            seq![TagExpr::Tag(tags[i].item.name)] + rest
        } else {
            rest
        }
    }
}

/// The `Tag` rows of the catalog members of (or, with `invert`, not of)
/// the severity, in declaration order from `i`.
pub open spec fn sev_rows(
    tags: Seq<InDatabase<TagInfo>>,
    s: Severity,
    invert: bool,
    i: int,
) -> Seq<TagExpr>
    decreases tags.len() - i,
{
    if i < 0 || i >= tags.len() {
        Seq::empty()
    } else {
        let rest = sev_rows(tags, s, invert, i + 1);
        if (tags[i].item.severity == s) != invert {
            seq![TagExpr::Tag(tags[i].item.name)] + rest
        } else {
            rest
        }
    }
}

/// One output row per left row, combined with the fixed right row.
pub open spec fn cross_row(op_and: bool, ls: Seq<TagExpr>, y: TagExpr, i: int) -> Seq<TagExpr>
    decreases ls.len() - i,
{
    if i < 0 || i >= ls.len() {
        Seq::empty()
    } else {
        let combined = if op_and {
            TagExpr::And(Box::new(ls[i]), Box::new(y))
        } else {
            TagExpr::Or(Box::new(ls[i]), Box::new(y))
        };
        seq![combined] + cross_row(op_and, ls, y, i + 1)
    }
}

/// The cartesian product of the row lists: for each right row, one
/// combination with every left row.
pub open spec fn cross(op_and: bool, ls: Seq<TagExpr>, rs: Seq<TagExpr>, j: int) -> Seq<TagExpr>
    decreases rs.len() - j,
{
    if j < 0 || j >= rs.len() {
        Seq::empty()
    } else {
        cross_row(op_and, ls, rs[j], 0) + cross(op_and, ls, rs, j + 1)
    }
}

/// Generator expansion: distribute `!` by De Morgan's laws so that no
/// generator sits under a negation, then expand `T`/`S` generators
/// against the catalog and take cartesian products across `&&` and `||`.
pub open spec fn spec_eval_rows(e: TagExpr, tags: Seq<InDatabase<TagInfo>>) -> Seq<TagExpr>
    decreases expr_weight(e),
    via spec_eval_rows_decreases
{
    match e {
        TagExpr::Not(inner) => match *inner {
            TagExpr::Not(x) => spec_eval_rows(*x, tags),
            TagExpr::And(l, r) => spec_eval_rows(
                TagExpr::Or(Box::new(TagExpr::Not(l)), Box::new(TagExpr::Not(r))),
                tags,
            ),
            TagExpr::Or(l, r) => spec_eval_rows(
                TagExpr::And(Box::new(TagExpr::Not(l)), Box::new(TagExpr::Not(r))),
                tags,
            ),
            TagExpr::TagSet(p) => set_rows(tags, p@, true, 0),
            TagExpr::SeveritySet(s) => sev_rows(tags, s, true, 0),
            TagExpr::Tag(p) => seq![TagExpr::Not(Box::new(TagExpr::Tag(p)))],
            TagExpr::Severity(s) => seq![TagExpr::Not(Box::new(TagExpr::Severity(s)))],
        },
        TagExpr::And(l, r) => cross(true, spec_eval_rows(*l, tags), spec_eval_rows(*r, tags), 0),
        TagExpr::Or(l, r) => cross(false, spec_eval_rows(*l, tags), spec_eval_rows(*r, tags), 0),
        TagExpr::TagSet(p) => set_rows(tags, p@, false, 0),
        TagExpr::SeveritySet(s) => sev_rows(tags, s, false, 0),
        TagExpr::Tag(p) => seq![TagExpr::Tag(p)],
        TagExpr::Severity(s) => seq![TagExpr::Severity(s)],
    }
}

#[via_fn]
proof fn spec_eval_rows_decreases(e: TagExpr, tags: Seq<InDatabase<TagInfo>>) {
    match e {
        TagExpr::Not(inner) => {
            assert(expr_weight(e) == 2 * expr_weight(*inner) + 1);
            match *inner {
                TagExpr::Not(x) => {
                    assert(expr_weight(*inner) == 2 * expr_weight(*x) + 1);
                },
                TagExpr::And(l, r) => {
                    assert(expr_weight(*inner) == expr_weight(*l) + expr_weight(*r) + 2);
                    assert(expr_weight(TagExpr::Not(l)) == 2 * expr_weight(*l) + 1);
                    assert(expr_weight(TagExpr::Not(r)) == 2 * expr_weight(*r) + 1);
                    assert(expr_weight(
                        TagExpr::Or(Box::new(TagExpr::Not(l)), Box::new(TagExpr::Not(r))),
                    ) == 2 * expr_weight(*l) + 2 * expr_weight(*r) + 4);
                },
                TagExpr::Or(l, r) => {
                    assert(expr_weight(*inner) == expr_weight(*l) + expr_weight(*r) + 2);
                    assert(expr_weight(TagExpr::Not(l)) == 2 * expr_weight(*l) + 1);
                    assert(expr_weight(TagExpr::Not(r)) == 2 * expr_weight(*r) + 1);
                    assert(expr_weight(
                        TagExpr::And(Box::new(TagExpr::Not(l)), Box::new(TagExpr::Not(r))),
                    ) == 2 * expr_weight(*l) + 2 * expr_weight(*r) + 4);
                },
                _ => {},
            }
        },
        _ => {},
    }
}

/// De Morgan over conjunction: negating a conjunction expands to exactly
/// the rows of the disjunction of the negations.
pub proof fn lemma_eval_de_morgan_and(a: TagExpr, b: TagExpr, tags: Seq<InDatabase<TagInfo>>)
    ensures
        spec_eval_rows(TagExpr::Not(Box::new(TagExpr::And(Box::new(a), Box::new(b)))), tags)
            == spec_eval_rows(
            TagExpr::Or(Box::new(TagExpr::Not(Box::new(a))), Box::new(TagExpr::Not(Box::new(b)))),
            tags,
        ),
{
}

/// De Morgan over disjunction: negating a disjunction expands to exactly
/// the rows of the conjunction of the negations.
pub proof fn lemma_eval_de_morgan_or(a: TagExpr, b: TagExpr, tags: Seq<InDatabase<TagInfo>>)
    ensures
        spec_eval_rows(TagExpr::Not(Box::new(TagExpr::Or(Box::new(a), Box::new(b)))), tags)
            == spec_eval_rows(
            TagExpr::And(Box::new(TagExpr::Not(Box::new(a))), Box::new(TagExpr::Not(Box::new(b)))),
            tags,
        ),
{
}

/// Double negation drops out of the expansion.
pub proof fn lemma_eval_double_negation(a: TagExpr, tags: Seq<InDatabase<TagInfo>>)
    ensures
        spec_eval_rows(TagExpr::Not(Box::new(TagExpr::Not(Box::new(a)))), tags) == spec_eval_rows(
            a,
            tags,
        ),
{
}

/// Every generator pattern in the expression compiles.
pub open spec fn sets_ok(e: TagExpr) -> bool
    decreases e,
{
    match e {
        TagExpr::Not(i) => sets_ok(*i),
        TagExpr::And(l, r) => sets_ok(*l) && sets_ok(*r),
        TagExpr::Or(l, r) => sets_ok(*l) && sets_ok(*r),
        TagExpr::TagSet(p) => regex_ok(p@),
        _ => true,
    }
}

/// Every pattern in the expression, leaf or generator, compiles.
pub open spec fn patterns_ok(e: TagExpr) -> bool
    decreases e,
{
    match e {
        TagExpr::Not(i) => patterns_ok(*i),
        TagExpr::And(l, r) => patterns_ok(*l) && patterns_ok(*r),
        TagExpr::Or(l, r) => patterns_ok(*l) && patterns_ok(*r),
        TagExpr::TagSet(p) => regex_ok(p@),
        TagExpr::Tag(p) => regex_ok(p@),
        _ => true,
    }
}


/// `expr_like` is transitive.
pub proof fn lemma_expr_like_trans(a: TagExpr, b: TagExpr, c: TagExpr)
    requires
        expr_like(a, b),
        expr_like(b, c),
    ensures
        expr_like(a, c),
    decreases a,
{
    match (a, b, c) {
        (TagExpr::Not(x), TagExpr::Not(y), TagExpr::Not(z)) => {
            lemma_expr_like_trans(*x, *y, *z);
        },
        (TagExpr::And(l1, r1), TagExpr::And(l2, r2), TagExpr::And(l3, r3)) => {
            lemma_expr_like_trans(*l1, *l2, *l3);
            lemma_expr_like_trans(*r1, *r2, *r3);
        },
        (TagExpr::Or(l1, r1), TagExpr::Or(l2, r2), TagExpr::Or(l3, r3)) => {
            lemma_expr_like_trans(*l1, *l2, *l3);
            lemma_expr_like_trans(*r1, *r2, *r3);
        },
        _ => {},
    }
}

/// `rows_like` is transitive.
pub proof fn lemma_rows_like_trans(a: Seq<TagExpr>, b: Seq<TagExpr>, c: Seq<TagExpr>)
    requires
        rows_like(a, b),
        rows_like(b, c),
    ensures
        rows_like(a, c),
{
    assert forall|i: int| 0 <= i < a.len() implies expr_like(#[trigger] a[i], c[i]) by {
        lemma_expr_like_trans(a[i], b[i], c[i]);
    }
}

/// Combining like rows with like rows gives like rows.
pub proof fn lemma_cross_row_like(
    op: bool,
    a: Seq<TagExpr>,
    a2: Seq<TagExpr>,
    y: TagExpr,
    y2: TagExpr,
    i: int,
)
    requires
        rows_like(a, a2),
        expr_like(y, y2),
    ensures
        rows_like(cross_row(op, a, y, i), cross_row(op, a2, y2, i)),
    decreases a.len() - i,
{
    if 0 <= i < a.len() {
        lemma_cross_row_like(op, a, a2, y, y2, i + 1);
        let x = cross_row(op, a, y, i);
        let x2 = cross_row(op, a2, y2, i);
        assert forall|k: int| 0 <= k < x.len() implies expr_like(#[trigger] x[k], x2[k]) by {
            if k == 0 {
                assert(expr_like(a[i], a2[i]));
            } else {
                assert(x[k] == cross_row(op, a, y, i + 1)[k - 1]);
                assert(x2[k] == cross_row(op, a2, y2, i + 1)[k - 1]);
            }
        }
    }
}

/// The cartesian product of like rows with like rows gives like rows.
pub proof fn lemma_cross_like(
    op: bool,
    a: Seq<TagExpr>,
    a2: Seq<TagExpr>,
    b: Seq<TagExpr>,
    b2: Seq<TagExpr>,
    j: int,
)
    requires
        rows_like(a, a2),
        rows_like(b, b2),
    ensures
        rows_like(cross(op, a, b, j), cross(op, a2, b2, j)),
    decreases b.len() - j,
{
    if 0 <= j < b.len() {
        lemma_cross_like(op, a, a2, b, b2, j + 1);
        lemma_cross_row_like(op, a, a2, b[j], b2[j], 0);
        let h = cross_row(op, a, b[j], 0);
        let h2 = cross_row(op, a2, b2[j], 0);
        let t = cross(op, a, b, j + 1);
        let t2 = cross(op, a2, b2, j + 1);
        assert forall|k: int| 0 <= k < (h + t).len() implies expr_like(
            #[trigger] (h + t)[k],
            (h2 + t2)[k],
        ) by {
            if k < h.len() {
                assert((h + t)[k] == h[k] && (h2 + t2)[k] == h2[k]);
            } else {
                assert((h + t)[k] == t[k - h.len()] && (h2 + t2)[k] == t2[k - h.len()]);
            }
        }
    }
}

/// Failures of generator expansion or evaluation: an invalid pattern.
#[derive(Clone, Copy, Debug, PartialEq, Eq, Structural)]
pub struct EvalError {
    /// Placeholder for the diagnostics of the offending pattern.
    pub bad_pattern: bool,
}

/// Deep copy of an expression.
pub fn clone_expr(e: &TagExpr) -> (r: TagExpr)
    ensures
        expr_like(r, *e),
    decreases *e,
{
    match e {
        TagExpr::Not(i) => TagExpr::Not(Box::new(clone_expr(i))),
        TagExpr::And(l, r) => TagExpr::And(Box::new(clone_expr(l)), Box::new(clone_expr(r))),
        TagExpr::Or(l, r) => TagExpr::Or(Box::new(clone_expr(l)), Box::new(clone_expr(r))),
        TagExpr::TagSet(p) => TagExpr::TagSet(crate::db::clone_bytes(p)),
        TagExpr::SeveritySet(s) => TagExpr::SeveritySet(*s),
        TagExpr::Tag(p) => TagExpr::Tag(crate::db::clone_bytes(p)),
        TagExpr::Severity(s) => TagExpr::Severity(*s),
    }
}

/// The `Tag` rows for one tag-name generator, from catalog entry `i` on.
fn set_rows_exec(
    tags: &Vec<InDatabase<TagInfo>>,
    p: &Vec<u8>,
    invert: bool,
    i: usize,
) -> (r: Vec<TagExpr>)
    requires
        regex_ok(p@),
        i <= tags@.len(),
    ensures
        rows_like(r@, set_rows(tags@, p@, invert, i as int)),
    decreases tags@.len() - i,
{
    if i == tags.len() {
        Vec::new()
    } else {
        let mut rest = set_rows_exec(tags, p, invert, i + 1);
        let matched = match regex_match_once(p, &tags[i].item.name) {
            Some(m) => m,
            None => {
                proof {
                    assert(false);
                }
                false
            },
        };
        if matched != invert {
            rest.insert(0, TagExpr::Tag(crate::db::clone_bytes(&tags[i].item.name)));
            proof {
                let sp = set_rows(tags@, p@, invert, i as int);
                let spt = set_rows(tags@, p@, invert, i as int + 1);
                assert forall|k: int| 0 <= k < rest@.len() implies expr_like(
                    #[trigger] rest@[k],
                    sp[k],
                ) by {
                    if k == 0 {
                        assert(sp[0] == TagExpr::Tag(tags@[i as int].item.name));
                    } else {
                        assert(sp[k] == spt[k - 1]);
                    }
                }
            }
        }
        rest
    }
}

/// The `Tag` rows for one severity generator, from catalog entry `i` on.
fn sev_rows_exec(tags: &Vec<InDatabase<TagInfo>>, s: Severity, invert: bool, i: usize) -> (r: Vec<
    TagExpr,
>)
    requires
        i <= tags@.len(),
    ensures
        rows_like(r@, sev_rows(tags@, s, invert, i as int)),
    decreases tags@.len() - i,
{
    if i == tags.len() {
        Vec::new()
    } else {
        let mut rest = sev_rows_exec(tags, s, invert, i + 1);
        let matched = tags[i].item.severity == s;
        if matched != invert {
            rest.insert(0, TagExpr::Tag(crate::db::clone_bytes(&tags[i].item.name)));
            proof {
                let sp = sev_rows(tags@, s, invert, i as int);
                let spt = sev_rows(tags@, s, invert, i as int + 1);
                assert forall|k: int| 0 <= k < rest@.len() implies expr_like(
                    #[trigger] rest@[k],
                    sp[k],
                ) by {
                    if k == 0 {
                        assert(sp[0] == TagExpr::Tag(tags@[i as int].item.name));
                    } else {
                        assert(sp[k] == spt[k - 1]);
                    }
                }
            }
        }
        rest
    }
}

/// One combined row per left row, with the fixed right row.
fn cross_row_exec(op_and: bool, ls: &Vec<TagExpr>, y: &TagExpr, i: usize) -> (r: Vec<TagExpr>)
    requires
        i <= ls@.len(),
    ensures
        rows_like(r@, cross_row(op_and, ls@, *y, i as int)),
    decreases ls@.len() - i,
{
    if i == ls.len() {
        Vec::new()
    } else {
        let combined = if op_and {
            TagExpr::And(Box::new(clone_expr(&ls[i])), Box::new(clone_expr(y)))
        } else {
            TagExpr::Or(Box::new(clone_expr(&ls[i])), Box::new(clone_expr(y)))
        };
        let mut rest = cross_row_exec(op_and, ls, y, i + 1);
        rest.insert(0, combined);
        proof {
            let sp = cross_row(op_and, ls@, *y, i as int);
            let spt = cross_row(op_and, ls@, *y, i as int + 1);
            assert forall|k: int| 0 <= k < rest@.len() implies expr_like(#[trigger] rest@[k], sp[k])
                by {
                if k == 0 {
                } else {
                    assert(sp[k] == spt[k - 1]);
                }
            }
        }
        rest
    }
}

/// The full cartesian product: for each right row, one combination with
/// every left row.
fn cross_exec(op_and: bool, ls: &Vec<TagExpr>, rs: &Vec<TagExpr>, j: usize) -> (r: Vec<TagExpr>)
    requires
        j <= rs@.len(),
    ensures
        rows_like(r@, cross(op_and, ls@, rs@, j as int)),
    decreases rs@.len() - j,
{
    if j == rs.len() {
        Vec::new()
    } else {
        let mut head = cross_row_exec(op_and, ls, &rs[j], 0);
        let mut tail = cross_exec(op_and, ls, rs, j + 1);
        proof {
            assert(rs@[j as int] == rs@[j as int]);
        }
        let ghost gh = head@;
        let ghost gt = tail@;
        head.append(&mut tail);
        proof {
            let sp = cross(op_and, ls@, rs@, j as int);
            let sph = cross_row(op_and, ls@, rs@[j as int], 0);
            let spt = cross(op_and, ls@, rs@, j as int + 1);
            assert forall|k: int| 0 <= k < head@.len() implies expr_like(#[trigger] head@[k], sp[k])
                by {
                if k < gh.len() {
                    assert(head@[k] == gh[k] && sp[k] == sph[k]);
                } else {
                    assert(head@[k] == gt[k - gh.len()] && sp[k] == spt[k - sph.len()]);
                }
            }
        }
        head
    }
}

/// Rewriting a negated conjunction by De Morgan strictly shrinks the
/// expansion measure.
pub proof fn lemma_weight_not_and(l: Box<TagExpr>, r: Box<TagExpr>)
    ensures
        expr_weight(TagExpr::Or(Box::new(TagExpr::Not(l)), Box::new(TagExpr::Not(r))))
            < expr_weight(TagExpr::Not(Box::new(TagExpr::And(l, r)))),
{
    assert(expr_weight(TagExpr::Not(l)) == 2 * expr_weight(*l) + 1);
    assert(expr_weight(TagExpr::Not(r)) == 2 * expr_weight(*r) + 1);
    assert(expr_weight(TagExpr::Or(Box::new(TagExpr::Not(l)), Box::new(TagExpr::Not(r)))) == 2
        * expr_weight(*l) + 2 * expr_weight(*r) + 4);
    assert(expr_weight(TagExpr::And(l, r)) == expr_weight(*l) + expr_weight(*r) + 2);
    assert(expr_weight(TagExpr::Not(Box::new(TagExpr::And(l, r)))) == 2 * expr_weight(*l) + 2
        * expr_weight(*r) + 5);
}

/// Rewriting a negated disjunction by De Morgan strictly shrinks the
/// expansion measure.
pub proof fn lemma_weight_not_or(l: Box<TagExpr>, r: Box<TagExpr>)
    ensures
        expr_weight(TagExpr::And(Box::new(TagExpr::Not(l)), Box::new(TagExpr::Not(r))))
            < expr_weight(TagExpr::Not(Box::new(TagExpr::Or(l, r)))),
{
    assert(expr_weight(TagExpr::Not(l)) == 2 * expr_weight(*l) + 1);
    assert(expr_weight(TagExpr::Not(r)) == 2 * expr_weight(*r) + 1);
    assert(expr_weight(TagExpr::And(Box::new(TagExpr::Not(l)), Box::new(TagExpr::Not(r)))) == 2
        * expr_weight(*l) + 2 * expr_weight(*r) + 4);
    assert(expr_weight(TagExpr::Or(l, r)) == expr_weight(*l) + expr_weight(*r) + 2);
    assert(expr_weight(TagExpr::Not(Box::new(TagExpr::Or(l, r)))) == 2 * expr_weight(*l) + 2
        * expr_weight(*r) + 5);
}

impl TagExpr {
    /// Expand the expression against the known tag catalog into its list
    /// of positive-atomic rows: negation is pushed inward by De Morgan's
    /// laws, generators expand to one `Tag` leaf per catalog member, and
    /// `&&`/`||` take cartesian products. Fails exactly when a generator
    /// pattern does not compile.
    pub fn eval_rows(self, tags: &Vec<InDatabase<TagInfo>>) -> (r: Result<Vec<TagExpr>, EvalError>)
        ensures
            r is Ok <==> sets_ok(self),
            r is Ok ==> rows_like(r->Ok_0@, spec_eval_rows(self, tags@)),
        decreases expr_weight(self),
    {
        let ghost e0 = self;
        match self {
            TagExpr::Not(inner) => {
                let ghost ginner = *inner;
                match *inner {
                    TagExpr::Not(x) => {
                        let ghost gx = *x;
                        proof {
                            assert(expr_weight(e0) == 2 * expr_weight(ginner) + 1);
                            assert(expr_weight(ginner) == 2 * expr_weight(gx) + 1);
                            assert(sets_ok(e0) == sets_ok(ginner));
                            assert(sets_ok(ginner) == sets_ok(gx));
                            assert(spec_eval_rows(e0, tags@) == spec_eval_rows(gx, tags@));
                        }
                        let res = x.eval_rows(tags);
                        res
                    },
                    TagExpr::And(l, r) => {
                        let ghost gl = *l;
                        let ghost gr = *r;
                        proof {
                            lemma_weight_not_and(l, r);
                        }
                        let rw = TagExpr::Or(Box::new(TagExpr::Not(l)), Box::new(TagExpr::Not(r)));
                        let ghost grw = rw;
                        proof {
                            assert(sets_ok(e0) == sets_ok(ginner));
                            assert(sets_ok(ginner) == (sets_ok(gl) && sets_ok(gr)));
                            assert(sets_ok(grw) == (sets_ok(TagExpr::Not(Box::new(gl))) && sets_ok(
                                TagExpr::Not(Box::new(gr)),
                            )));
                            assert(sets_ok(TagExpr::Not(Box::new(gl))) == sets_ok(gl));
                            assert(sets_ok(TagExpr::Not(Box::new(gr))) == sets_ok(gr));
                            assert(spec_eval_rows(e0, tags@) == spec_eval_rows(grw, tags@));
                        }
                        rw.eval_rows(tags)
                    },
                    TagExpr::Or(l, r) => {
                        let ghost gl = *l;
                        let ghost gr = *r;
                        proof {
                            lemma_weight_not_or(l, r);
                        }
                        let rw = TagExpr::And(Box::new(TagExpr::Not(l)), Box::new(TagExpr::Not(r)));
                        let ghost grw = rw;
                        proof {
                            assert(sets_ok(e0) == sets_ok(ginner));
                            assert(sets_ok(ginner) == (sets_ok(gl) && sets_ok(gr)));
                            assert(sets_ok(grw) == (sets_ok(TagExpr::Not(Box::new(gl))) && sets_ok(
                                TagExpr::Not(Box::new(gr)),
                            )));
                            assert(sets_ok(TagExpr::Not(Box::new(gl))) == sets_ok(gl));
                            assert(sets_ok(TagExpr::Not(Box::new(gr))) == sets_ok(gr));
                            assert(spec_eval_rows(e0, tags@) == spec_eval_rows(grw, tags@));
                        }
                        rw.eval_rows(tags)
                    },
                    TagExpr::TagSet(p) => {
                        proof {
                            assert(sets_ok(e0) == sets_ok(ginner));
                        }
                        if regex_check(&p) {
                            Ok(set_rows_exec(tags, &p, true, 0))
                        } else {
                            Err(EvalError { bad_pattern: true })
                        }
                    },
                    TagExpr::SeveritySet(sv) => {
                        proof {
                            assert(sets_ok(e0) == sets_ok(ginner));
                        }
                        Ok(sev_rows_exec(tags, sv, true, 0))
                    },
                    TagExpr::Tag(p) => {
                        let ghost gp = p;
                        let mut out: Vec<TagExpr> = Vec::new();
                        out.push(TagExpr::Not(Box::new(TagExpr::Tag(p))));
                        proof {
                            assert(sets_ok(e0) == sets_ok(ginner));
                            assert(out@ =~= seq![TagExpr::Not(Box::new(TagExpr::Tag(gp)))]);
                            assert(expr_like(TagExpr::Tag(gp), TagExpr::Tag(gp)));
                            assert(expr_like(
                                TagExpr::Not(Box::new(TagExpr::Tag(gp))),
                                TagExpr::Not(Box::new(TagExpr::Tag(gp))),
                            ));
                        }
                        Ok(out)
                    },
                    TagExpr::Severity(sv) => {
                        let mut out: Vec<TagExpr> = Vec::new();
                        out.push(TagExpr::Not(Box::new(TagExpr::Severity(sv))));
                        proof {
                            assert(sets_ok(e0) == sets_ok(ginner));
                            assert(out@ =~= seq![TagExpr::Not(Box::new(TagExpr::Severity(sv)))]);
                            assert(expr_like(TagExpr::Severity(sv), TagExpr::Severity(sv)));
                            assert(expr_like(
                                TagExpr::Not(Box::new(TagExpr::Severity(sv))),
                                TagExpr::Not(Box::new(TagExpr::Severity(sv))),
                            ));
                        }
                        Ok(out)
                    },
                }
            },
            TagExpr::And(l, r) => {
                let ghost gl = *l;
                let ghost gr = *r;
                match l.eval_rows(tags) {
                    Ok(ls) => match r.eval_rows(tags) {
                        Ok(rs) => {
                            let out = cross_exec(true, &ls, &rs, 0);
                            proof {
                                lemma_cross_like(
                                    true,
                                    ls@,
                                    spec_eval_rows(gl, tags@),
                                    rs@,
                                    spec_eval_rows(gr, tags@),
                                    0,
                                );
                                lemma_rows_like_trans(
                                    out@,
                                    cross(true, ls@, rs@, 0),
                                    cross(
                                        true,
                                        spec_eval_rows(gl, tags@),
                                        spec_eval_rows(gr, tags@),
                                        0,
                                    ),
                                );
                            }
                            Ok(out)
                        },
                        Err(e) => Err(e),
                    },
                    Err(e) => Err(e),
                }
            },
            TagExpr::Or(l, r) => {
                let ghost gl = *l;
                let ghost gr = *r;
                match l.eval_rows(tags) {
                    Ok(ls) => match r.eval_rows(tags) {
                        Ok(rs) => {
                            let out = cross_exec(false, &ls, &rs, 0);
                            proof {
                                lemma_cross_like(
                                    false,
                                    ls@,
                                    spec_eval_rows(gl, tags@),
                                    rs@,
                                    spec_eval_rows(gr, tags@),
                                    0,
                                );
                                lemma_rows_like_trans(
                                    out@,
                                    cross(false, ls@, rs@, 0),
                                    cross(
                                        false,
                                        spec_eval_rows(gl, tags@),
                                        spec_eval_rows(gr, tags@),
                                        0,
                                    ),
                                );
                            }
                            Ok(out)
                        },
                        Err(e) => Err(e),
                    },
                    Err(e) => Err(e),
                }
            },
            TagExpr::TagSet(p) => {
                if regex_check(&p) {
                    Ok(set_rows_exec(tags, &p, false, 0))
                } else {
                    Err(EvalError { bad_pattern: true })
                }
            },
            TagExpr::SeveritySet(sv) => Ok(sev_rows_exec(tags, sv, false, 0)),
            TagExpr::Tag(p) => {
                let ghost gp = p;
                let mut out: Vec<TagExpr> = Vec::new();
                out.push(TagExpr::Tag(p));
                proof {
                    assert(out@ =~= seq![TagExpr::Tag(gp)]);
                    assert(expr_like(TagExpr::Tag(gp), TagExpr::Tag(gp)));
                }
                Ok(out)
            },
            TagExpr::Severity(sv) => {
                let mut out: Vec<TagExpr> = Vec::new();
                out.push(TagExpr::Severity(sv));
                proof {
                    assert(out@ =~= seq![TagExpr::Severity(sv)]);
                    assert(expr_like(TagExpr::Severity(sv), TagExpr::Severity(sv)));
                }
                Ok(out)
            },
        }
    }
}


/// A parse diagnostic: the byte position the parser stopped at and a
/// short message.
#[derive(Clone, Copy, Debug)]
pub struct ParseError {
    /// Byte offset into the expression source.
    pub pos: usize,
    /// What was expected or found.
    pub msg: &'static str,
}

/// The canonical byte spelling of a severity constant.
pub open spec fn spec_severity_name(s: Severity) -> Seq<u8> {
    match s {
        Severity::Metadata => seq![77u8, 101u8, 116u8, 97u8, 100u8, 97u8, 116u8, 97u8],
        Severity::Info => seq![73u8, 110u8, 102u8, 111u8],
        Severity::Warning => seq![87u8, 97u8, 114u8, 110u8, 105u8, 110u8, 103u8],
        Severity::Error => seq![69u8, 114u8, 114u8, 111u8, 114u8],
    }
}

/// The canonical byte spelling of a severity constant.
pub fn severity_name_bytes(s: Severity) -> (r: Vec<u8>)
    ensures
        r@ == spec_severity_name(s),
{
    let mut v: Vec<u8> = Vec::new();
    match s {
        Severity::Metadata => {
            v.push(77);
            v.push(101);
            v.push(116);
            v.push(97);
            v.push(100);
            v.push(97);
            v.push(116);
            v.push(97);
        },
        Severity::Info => {
            v.push(73);
            v.push(110);
            v.push(102);
            v.push(111);
        },
        Severity::Warning => {
            v.push(87);
            v.push(97);
            v.push(114);
            v.push(110);
            v.push(105);
            v.push(110);
            v.push(103);
        },
        Severity::Error => {
            v.push(69);
            v.push(114);
            v.push(114);
            v.push(111);
            v.push(114);
        },
    }
    proof {
        assert(v@ =~= spec_severity_name(s));
    }
    v
}

/// The severity whose canonical spelling is `v`, if any.
pub fn severity_from_bytes(v: &[u8]) -> (r: Option<Severity>)
    ensures
        r == spec_severity_from(v@),
        match r {
            Some(s) => v@ == spec_severity_name(s),
            None => forall|s: Severity| v@ != spec_severity_name(s),
        },
{
    let meta = severity_name_bytes(Severity::Metadata);
    if crate::db::bytes_eq(v, meta.as_slice()) {
        return Some(Severity::Metadata);
    }
    let info = severity_name_bytes(Severity::Info);
    if crate::db::bytes_eq(v, info.as_slice()) {
        return Some(Severity::Info);
    }
    let warning = severity_name_bytes(Severity::Warning);
    if crate::db::bytes_eq(v, warning.as_slice()) {
        return Some(Severity::Warning);
    }
    let error = severity_name_bytes(Severity::Error);
    if crate::db::bytes_eq(v, error.as_slice()) {
        return Some(Severity::Error);
    }
    proof {
        assert forall|s: Severity| v@ != spec_severity_name(s) by {
            match s {
                Severity::Metadata => {},
                Severity::Info => {},
                Severity::Warning => {},
                Severity::Error => {},
            }
        }
    }
    None
}

/// The ghost shape of an expression: the same tree with byte-string
/// views for the pattern payloads. The grammar below is stated over
/// shapes, so a parse result is pinned up to byte-for-byte payloads.
pub enum ExprShape {
    Not(Box<ExprShape>),
    And(Box<ExprShape>, Box<ExprShape>),
    Or(Box<ExprShape>, Box<ExprShape>),
    TagSet(Seq<u8>),
    SeveritySet(Severity),
    Tag(Seq<u8>),
    Severity(Severity),
}

/// The shape of an expression value.
pub open spec fn shape_of(e: TagExpr) -> ExprShape
    decreases e,
{
    match e {
        TagExpr::Not(i) => ExprShape::Not(Box::new(shape_of(*i))),
        TagExpr::And(l, r) => ExprShape::And(Box::new(shape_of(*l)), Box::new(shape_of(*r))),
        TagExpr::Or(l, r) => ExprShape::Or(Box::new(shape_of(*l)), Box::new(shape_of(*r))),
        TagExpr::TagSet(p) => ExprShape::TagSet(p@),
        TagExpr::SeveritySet(sv) => ExprShape::SeveritySet(sv),
        TagExpr::Tag(p) => ExprShape::Tag(p@),
        TagExpr::Severity(sv) => ExprShape::Severity(sv),
    }
}

/// Whitespace of the expression language: blank, tab, carriage return,
/// line feed.
pub open spec fn is_ws(b: u8) -> bool {
    b == 32 || b == 9 || b == 13 || b == 10
}

/// The position after any whitespace from `pos` on.
pub open spec fn spec_skip_ws(s: Seq<u8>, pos: int) -> int
    decreases s.len() - pos,
{
    if 0 <= pos < s.len() && is_ws(s[pos]) {
        spec_skip_ws(s, pos + 1)
    } else {
        pos
    }
}

/// The position of the next quote at or after `pos`, or the text's end.
pub open spec fn spec_quote_end(s: Seq<u8>, pos: int) -> int
    decreases s.len() - pos,
{
    if pos < 0 || pos >= s.len() {
        s.len() as int
    } else if s[pos] == 34 {
        pos
    } else {
        spec_quote_end(s, pos + 1)
    }
}

/// A double-quoted literal at `pos`: its body and the position after the
/// closing quote.
pub open spec fn spec_parse_quoted(s: Seq<u8>, pos: int) -> Option<(Seq<u8>, int)> {
    if 0 <= pos < s.len() && s[pos] == 34 {
        let e = spec_quote_end(s, pos + 1);
        if e < s.len() {
            Some((s.subrange(pos + 1, e), e + 1))
        } else {
            None
        }
    } else {
        None
    }
}

/// The severity constant spelled by `v`, if any.
pub open spec fn spec_severity_from(v: Seq<u8>) -> Option<Severity> {
    if v == spec_severity_name(Severity::Metadata) {
        Some(Severity::Metadata)
    } else if v == spec_severity_name(Severity::Info) {
        Some(Severity::Info)
    } else if v == spec_severity_name(Severity::Warning) {
        Some(Severity::Warning)
    } else if v == spec_severity_name(Severity::Error) {
        Some(Severity::Error)
    } else {
        None
    }
}

/// The grammar, primary level: a parenthesized disjunction, or one atom
/// `T"regex"`, `t"regex"`, `S"severity"`, `s"severity"`, whose pattern
/// must compile and whose severity must be one of the four constants.
pub open spec fn spec_parse_primary(s: Seq<u8>, pos: int) -> Option<(ExprShape, int)>
    decreases s.len() - pos, 0int,
{
    let p = spec_skip_ws(s, pos);
    if p < pos || p > s.len() {
        None
    } else if p >= s.len() {
        None
    } else if s[p] == 40 {
        match spec_parse_or(s, p + 1) {
            Some((e, p2)) => {
                let p3 = spec_skip_ws(s, p2);
                if 0 <= p3 < s.len() && s[p3] == 41 {
                    Some((e, p3 + 1))
                } else {
                    None
                }
            },
            None => None,
        }
    } else if s[p] == 84 || s[p] == 116 {
        match spec_parse_quoted(s, p + 1) {
            Some((body, p2)) => if regex_ok(body) {
                if s[p] == 84 {
                    Some((ExprShape::TagSet(body), p2))
                } else {
                    Some((ExprShape::Tag(body), p2))
                }
            } else {
                None
            },
            None => None,
        }
    } else if s[p] == 83 || s[p] == 115 {
        match spec_parse_quoted(s, p + 1) {
            Some((body, p2)) => match spec_severity_from(body) {
                Some(sv) => if s[p] == 83 {
                    Some((ExprShape::SeveritySet(sv), p2))
                } else {
                    Some((ExprShape::Severity(sv), p2))
                },
                None => None,
            },
            None => None,
        }
    } else {
        None
    }
}

/// The grammar, unary level: `!` binds tightest and applies to the
/// smallest following expression.
pub open spec fn spec_parse_unary(s: Seq<u8>, pos: int) -> Option<(ExprShape, int)>
    decreases s.len() - pos, 1int,
{
    let p = spec_skip_ws(s, pos);
    if p < pos || p > s.len() {
        None
    } else if p < s.len() && s[p] == 33 {
        match spec_parse_unary(s, p + 1) {
            Some((e, p2)) => Some((ExprShape::Not(Box::new(e)), p2)),
            None => None,
        }
    } else {
        spec_parse_primary(s, p)
    }
}

/// The grammar, conjunction tail: fold further `&& unary` onto `acc`,
/// left-associatively.
pub open spec fn spec_and_tail(s: Seq<u8>, acc: ExprShape, pos: int) -> Option<(ExprShape, int)>
    decreases s.len() - pos, 0int,
{
    let q = spec_skip_ws(s, pos);
    if q < pos || q > s.len() {
        None
    } else if q + 1 < s.len() && s[q] == 38 && s[q + 1] == 38 {
        match spec_parse_unary(s, q + 2) {
            Some((e2, p2)) => if pos < p2 <= s.len() {
                spec_and_tail(s, ExprShape::And(Box::new(acc), Box::new(e2)), p2)
            } else {
                None
            },
            None => None,
        }
    } else {
        Some((acc, pos))
    }
}

/// The grammar, conjunction level: left-associative `&&` over unaries.
pub open spec fn spec_parse_and(s: Seq<u8>, pos: int) -> Option<(ExprShape, int)>
    decreases s.len() - pos, 2int,
{
    match spec_parse_unary(s, pos) {
        Some((e0, p0)) => if pos < p0 <= s.len() {
            spec_and_tail(s, e0, p0)
        } else {
            None
        },
        None => None,
    }
}

/// The grammar, disjunction tail: fold further `|| conjunction` onto
/// `acc`, left-associatively.
pub open spec fn spec_or_tail(s: Seq<u8>, acc: ExprShape, pos: int) -> Option<(ExprShape, int)>
    decreases s.len() - pos, 0int,
{
    let q = spec_skip_ws(s, pos);
    if q < pos || q > s.len() {
        None
    } else if q + 1 < s.len() && s[q] == 124 && s[q + 1] == 124 {
        match spec_parse_and(s, q + 2) {
            Some((e2, p2)) => if pos < p2 <= s.len() {
                spec_or_tail(s, ExprShape::Or(Box::new(acc), Box::new(e2)), p2)
            } else {
                None
            },
            None => None,
        }
    } else {
        Some((acc, pos))
    }
}

/// The grammar, disjunction level: left-associative `||` over
/// conjunctions. This is the language's start symbol.
pub open spec fn spec_parse_or(s: Seq<u8>, pos: int) -> Option<(ExprShape, int)>
    decreases s.len() - pos, 3int,
{
    match spec_parse_and(s, pos) {
        Some((e0, p0)) => if pos < p0 <= s.len() {
            spec_or_tail(s, e0, p0)
        } else {
            None
        },
        None => None,
    }
}

/// The whole grammar: a disjunction followed by nothing but whitespace.
pub open spec fn spec_parse(s: Seq<u8>) -> Option<ExprShape> {
    match spec_parse_or(s, 0) {
        Some((e, p)) => {
            let q = spec_skip_ws(s, p);
            if q < s.len() {
                None
            } else {
                Some(e)
            }
        },
        None => None,
    }
}

/// Skip blanks, tabs, carriage returns and line feeds.
fn skip_ws(s: &[u8], pos: usize) -> (r: usize)
    requires
        pos <= s@.len(),
    ensures
        pos <= r <= s@.len(),
        r == spec_skip_ws(s@, pos as int),
{
    let mut p = pos;
    while p < s.len() && (s[p] == 32 || s[p] == 9 || s[p] == 13 || s[p] == 10)
        invariant
            pos <= p <= s@.len(),
            spec_skip_ws(s@, pos as int) == spec_skip_ws(s@, p as int),
        decreases s@.len() - p,
    {
        p += 1;
    }
    p
}

/// Scan a double-quoted literal starting at the opening quote; yields the
/// bytes between the quotes and the position after the closing quote.
fn parse_quoted(s: &[u8], pos: usize) -> (r: Result<(Vec<u8>, usize), ParseError>)
    requires
        pos <= s@.len(),
    ensures
        r is Ok ==> pos < r->Ok_0.1 <= s@.len(),
        match r {
            Ok((body, p2)) => spec_parse_quoted(s@, pos as int) == Some((body@, p2 as int)),
            Err(_) => spec_parse_quoted(s@, pos as int) is None,
        },
{
    if pos >= s.len() || s[pos] != 34 {
        return Err(ParseError { pos, msg: "expected an opening quote" });
    }
    let mut p = pos + 1;
    let mut body: Vec<u8> = Vec::new();
    while p < s.len() && s[p] != 34
        invariant
            pos < p <= s@.len(),
            pos < s@.len() && s@[pos as int] == 34,
            body@ =~= s@.subrange(pos as int + 1, p as int),
            spec_quote_end(s@, pos as int + 1) == spec_quote_end(s@, p as int),
        decreases s@.len() - p,
    {
        body.push(s[p]);
        proof {
            assert(body@ =~= s@.subrange(pos as int + 1, p as int + 1));
        }
        p += 1;
    }
    if p >= s.len() {
        return Err(ParseError { pos: p, msg: "unterminated quote" });
    }
    proof {
        assert(spec_quote_end(s@, p as int) == p as int);
        assert(body@ =~= s@.subrange(pos as int + 1, p as int));
    }
    Ok((body, p + 1))
}

/// Parse a primary: a parenthesized expression or one atom.
fn parse_primary(s: &[u8], pos: usize) -> (r: Result<(TagExpr, usize), ParseError>)
    requires
        pos <= s@.len(),
    ensures
        r is Ok ==> pos < r->Ok_0.1 <= s@.len() && patterns_ok(r->Ok_0.0),
        match r {
            Ok((e, p2)) => spec_parse_primary(s@, pos as int) == Some((shape_of(e), p2 as int)),
            Err(_) => spec_parse_primary(s@, pos as int) is None,
        },
    decreases s@.len() - pos, 0int,
{
    let p = skip_ws(s, pos);
    if p >= s.len() {
        return Err(ParseError { pos: p, msg: "expected an atom" });
    }
    let c = s[p];
    if c == 40 {
        // "(": a parenthesized expression.
        match parse_or(s, p + 1) {
            Ok((e, p2)) => {
                let p3 = skip_ws(s, p2);
                if p3 < s.len() && s[p3] == 41 {
                    Ok((e, p3 + 1))
                } else {
                    Err(ParseError { pos: p3, msg: "expected a closing parenthesis" })
                }
            },
            Err(e) => Err(e),
        }
    } else if c == 84 || c == 116 {
        // "T" or "t": a tag-name pattern.
        match parse_quoted(s, p + 1) {
            Ok((body, p2)) => {
                if regex_check(&body) {
                    if c == 84 {
                        Ok((TagExpr::TagSet(body), p2))
                    } else {
                        Ok((TagExpr::Tag(body), p2))
                    }
                } else {
                    Err(ParseError { pos: p, msg: "invalid tag-name pattern" })
                }
            },
            Err(e) => Err(e),
        }
    } else if c == 83 || c == 115 {
        // "S" or "s": a severity constant.
        match parse_quoted(s, p + 1) {
            Ok((body, p2)) => match severity_from_bytes(body.as_slice()) {
                Some(sv) => {
                    if c == 83 {
                        Ok((TagExpr::SeveritySet(sv), p2))
                    } else {
                        Ok((TagExpr::Severity(sv), p2))
                    }
                },
                None => Err(ParseError { pos: p, msg: "unknown severity constant" }),
            },
            Err(e) => Err(e),
        }
    } else {
        Err(ParseError { pos: p, msg: "expected an atom" })
    }
}

/// Parse a unary expression: any number of negations over a primary.
fn parse_unary(s: &[u8], pos: usize) -> (r: Result<(TagExpr, usize), ParseError>)
    requires
        pos <= s@.len(),
    ensures
        r is Ok ==> pos < r->Ok_0.1 <= s@.len() && patterns_ok(r->Ok_0.0),
        match r {
            Ok((e, p2)) => spec_parse_unary(s@, pos as int) == Some((shape_of(e), p2 as int)),
            Err(_) => spec_parse_unary(s@, pos as int) is None,
        },
    decreases s@.len() - pos, 1int,
{
    let p = skip_ws(s, pos);
    if p < s.len() && s[p] == 33 {
        // "!"
        match parse_unary(s, p + 1) {
            Ok((e, p2)) => Ok((TagExpr::Not(Box::new(e)), p2)),
            Err(e) => Err(e),
        }
    } else {
        parse_primary(s, p)
    }
}

/// Parse a conjunction: left-associative `&&` over unary expressions.
fn parse_and(s: &[u8], pos: usize) -> (r: Result<(TagExpr, usize), ParseError>)
    requires
        pos <= s@.len(),
    ensures
        r is Ok ==> pos < r->Ok_0.1 <= s@.len() && patterns_ok(r->Ok_0.0),
        match r {
            Ok((e, p2)) => spec_parse_and(s@, pos as int) == Some((shape_of(e), p2 as int)),
            Err(_) => spec_parse_and(s@, pos as int) is None,
        },
    decreases s@.len() - pos, 2int,
{
    let first = parse_unary(s, pos);
    match first {
        Ok((e0, p0)) => {
            let mut acc = e0;
            let mut p = p0;
            loop
                invariant
                    pos < p <= s@.len(),
                    patterns_ok(acc),
                    spec_parse_and(s@, pos as int) == spec_and_tail(s@, shape_of(acc), p as int),
                ensures
                    pos < p <= s@.len(),
                    patterns_ok(acc),
                    spec_parse_and(s@, pos as int) == Some((shape_of(acc), p as int)),
                decreases s@.len() - p,
            {
                let q = skip_ws(s, p);
                if q < s.len() && q + 1 < s.len() && s[q] == 38 && s[q + 1] == 38 {
                    // "&&"
                    match parse_unary(s, q + 2) {
                        Ok((e2, p2)) => {
                            acc = TagExpr::And(Box::new(acc), Box::new(e2));
                            p = p2;
                        },
                        Err(e) => {
                            return Err(e);
                        },
                    }
                } else {
                    proof {
                        assert(spec_and_tail(s@, shape_of(acc), p as int) == Some((
                            shape_of(acc),
                            p as int,
                        )));
                    }
                    break ;
                }
            }
            Ok((acc, p))
        },
        Err(e) => Err(e),
    }
}

/// Parse a disjunction: left-associative `||` over conjunctions.
fn parse_or(s: &[u8], pos: usize) -> (r: Result<(TagExpr, usize), ParseError>)
    requires
        pos <= s@.len(),
    ensures
        r is Ok ==> pos < r->Ok_0.1 <= s@.len() && patterns_ok(r->Ok_0.0),
        match r {
            Ok((e, p2)) => spec_parse_or(s@, pos as int) == Some((shape_of(e), p2 as int)),
            Err(_) => spec_parse_or(s@, pos as int) is None,
        },
    decreases s@.len() - pos, 3int,
{
    let first = parse_and(s, pos);
    match first {
        Ok((e0, p0)) => {
            let mut acc = e0;
            let mut p = p0;
            loop
                invariant
                    pos < p <= s@.len(),
                    patterns_ok(acc),
                    spec_parse_or(s@, pos as int) == spec_or_tail(s@, shape_of(acc), p as int),
                ensures
                    pos < p <= s@.len(),
                    patterns_ok(acc),
                    spec_parse_or(s@, pos as int) == Some((shape_of(acc), p as int)),
                decreases s@.len() - p,
            {
                let q = skip_ws(s, p);
                if q < s.len() && q + 1 < s.len() && s[q] == 124 && s[q + 1] == 124 {
                    // "||"
                    match parse_and(s, q + 2) {
                        Ok((e2, p2)) => {
                            acc = TagExpr::Or(Box::new(acc), Box::new(e2));
                            p = p2;
                        },
                        Err(e) => {
                            return Err(e);
                        },
                    }
                } else {
                    proof {
                        assert(spec_or_tail(s@, shape_of(acc), p as int) == Some((
                            shape_of(acc),
                            p as int,
                        )));
                    }
                    break ;
                }
            }
            Ok((acc, p))
        },
        Err(e) => Err(e),
    }
}

impl TagExpr {
    /// Parse a predicate expression. `!` binds tightest, then `&&`, then
    /// `||`, both binaries left-associative; atoms are `T"regex"`,
    /// `S"severity"`, `t"regex"` and `s"severity"`. Success comes exactly
    /// when the input belongs to the grammar `spec_parse` (which demands
    /// compiling patterns and known severity constants), and the returned
    /// tree is the grammar's, byte for byte; on failure the diagnostic
    /// carries the offending position.
    pub fn parse(expr: &[u8]) -> (r: Result<TagExpr, ParseError>)
        ensures
            r is Ok ==> patterns_ok(r->Ok_0),
            r is Ok <==> spec_parse(expr@) is Some,
            match r {
                Ok(e) => spec_parse(expr@) == Some(shape_of(e)),
                Err(_) => spec_parse(expr@) is None,
            },
    {
        match parse_or(expr, 0) {
            Ok((e, p)) => {
                let q = skip_ws(expr, p);
                if q < expr.len() {
                    Err(ParseError { pos: q, msg: "unexpected trailing input" })
                } else {
                    Ok(e)
                }
            },
            Err(e) => Err(e),
        }
    }
}


/// One bound parameter of a compiled selection query.
pub enum SqlParam {
    /// A tag-name pattern, bound to a REGEXP test.
    Pattern(Vec<u8>),
    /// A severity constant, bound to its canonical string encoding.
    SeverityName(Severity),
}

/// Equality of parameters up to byte-string views.
pub open spec fn param_like(a: SqlParam, b: SqlParam) -> bool {
    match (a, b) {
        (SqlParam::Pattern(x), SqlParam::Pattern(y)) => x@ == y@,
        (SqlParam::SeverityName(x), SqlParam::SeverityName(y)) => x == y,
        _ => false,
    }
}

/// Pointwise `param_like`.
pub open spec fn params_like(a: Seq<SqlParam>, b: Seq<SqlParam>) -> bool {
    a.len() == b.len() && forall|i: int| 0 <= i < a.len() ==> param_like(#[trigger] a[i], b[i])
}

/// Whether the expression compiles to SQL: generators must have been
/// expanded away first.
pub open spec fn sql_compilable(e: TagExpr) -> bool
    decreases e,
{
    match e {
        TagExpr::Not(i) => sql_compilable(*i),
        TagExpr::And(l, r) => sql_compilable(*l) && sql_compilable(*r),
        TagExpr::Or(l, r) => sql_compilable(*l) && sql_compilable(*r),
        TagExpr::TagSet(_) => false,
        TagExpr::SeveritySet(_) => false,
        _ => true,
    }
}

/// The WHERE clause text of a compilable expression.
pub open spec fn spec_sql_where(e: TagExpr) -> Seq<char>
    decreases e,
{
    match e {
        TagExpr::Not(i) => "NOT ("@ + spec_sql_where(*i) + ")"@,
        TagExpr::And(l, r) => "("@ + spec_sql_where(*l) + ") AND ("@ + spec_sql_where(*r) + ")"@,
        TagExpr::Or(l, r) => "("@ + spec_sql_where(*l) + ") OR ("@ + spec_sql_where(*r) + ")"@,
        TagExpr::Tag(
            _,
        ) => "EXISTS (SELECT 1 FROM issues JOIN tags ON tags.id = issues.tag_id WHERE issues.run_id = runs.id AND tags.name REGEXP ?)"@,
        TagExpr::Severity(
            _,
        ) => "EXISTS (SELECT 1 FROM issues JOIN tags ON tags.id = issues.tag_id WHERE issues.run_id = runs.id AND tags.severity = ?)"@,
        _ => Seq::empty(),
    }
}

/// The bound parameters of a compilable expression, leaf order.
pub open spec fn spec_sql_params(e: TagExpr) -> Seq<SqlParam>
    decreases e,
{
    match e {
        TagExpr::Not(i) => spec_sql_params(*i),
        TagExpr::And(l, r) => spec_sql_params(*l) + spec_sql_params(*r),
        TagExpr::Or(l, r) => spec_sql_params(*l) + spec_sql_params(*r),
        TagExpr::Tag(p) => seq![SqlParam::Pattern(p)],
        TagExpr::Severity(sv) => seq![SqlParam::SeverityName(sv)],
        _ => Seq::empty(),
    }
}

/// Append the WHERE clause of `e` and its parameters; reports whether `e`
/// was compilable (nothing is promised of the buffers otherwise).
fn sql_where_exec(e: &TagExpr, out: &mut String, params: &mut Vec<SqlParam>) -> (r: bool)
    ensures
        r == sql_compilable(*e),
        r ==> final(out)@ == old(out)@ + spec_sql_where(*e),
        r ==> final(params)@.len() == old(params)@.len() + spec_sql_params(*e).len(),
        r ==> forall|i: int|
            0 <= i < old(params)@.len() ==> #[trigger] final(params)@[i] == old(params)@[i],
        r ==> forall|i: int|
            0 <= i < spec_sql_params(*e).len() ==> param_like(
                #[trigger] final(params)@[old(params)@.len() + i],
                spec_sql_params(*e)[i],
            ),
    decreases *e,
{
    match e {
        TagExpr::Not(i) => {
            out.append("NOT (");
            let ok = sql_where_exec(i, out, params);
            if !ok {
                return false;
            }
            out.append(")");
            true
        },
        TagExpr::And(l, r) => {
            out.append("(");
            let ok1 = sql_where_exec(l, out, params);
            if !ok1 {
                return false;
            }
            out.append(") AND (");
            let ghost mid_params = params@;
            let ok2 = sql_where_exec(r, out, params);
            if !ok2 {
                return false;
            }
            out.append(")");
            proof {
                let pl = spec_sql_params(**l);
                let pr = spec_sql_params(**r);
                assert forall|i: int|
                    0 <= i < (pl + pr).len() implies param_like(
                    #[trigger] params@[old(params)@.len() + i],
                    (pl + pr)[i],
                ) by {
                    if i < pl.len() {
                        assert(params@[old(params)@.len() + i] == mid_params[old(params)@.len()
                            + i]);
                        assert(param_like(mid_params[old(params)@.len() + i], pl[i]));
                        assert((pl + pr)[i] == pl[i]);
                    } else {
                        let i2 = i - pl.len();
                        assert(param_like(params@[mid_params.len() + i2], pr[i2]));
                        assert(mid_params.len() + i2 == old(params)@.len() + i);
                        assert((pl + pr)[i] == pr[i2]);
                    }
                }
            }
            true
        },
        TagExpr::Or(l, r) => {
            out.append("(");
            let ok1 = sql_where_exec(l, out, params);
            if !ok1 {
                return false;
            }
            out.append(") OR (");
            let ghost mid_params = params@;
            let ok2 = sql_where_exec(r, out, params);
            if !ok2 {
                return false;
            }
            out.append(")");
            proof {
                let pl = spec_sql_params(**l);
                let pr = spec_sql_params(**r);
                assert forall|i: int|
                    0 <= i < (pl + pr).len() implies param_like(
                    #[trigger] params@[old(params)@.len() + i],
                    (pl + pr)[i],
                ) by {
                    if i < pl.len() {
                        assert(params@[old(params)@.len() + i] == mid_params[old(params)@.len()
                            + i]);
                        assert(param_like(mid_params[old(params)@.len() + i], pl[i]));
                        assert((pl + pr)[i] == pl[i]);
                    } else {
                        let i2 = i - pl.len();
                        assert(param_like(params@[mid_params.len() + i2], pr[i2]));
                        assert(mid_params.len() + i2 == old(params)@.len() + i);
                        assert((pl + pr)[i] == pr[i2]);
                    }
                }
            }
            true
        },
        TagExpr::TagSet(_) => false,
        TagExpr::SeveritySet(_) => false,
        TagExpr::Tag(p) => {
            out.append(
                "EXISTS (SELECT 1 FROM issues JOIN tags ON tags.id = issues.tag_id WHERE issues.run_id = runs.id AND tags.name REGEXP ?)",
            );
            params.push(SqlParam::Pattern(crate::db::clone_bytes(p)));
            true
        },
        TagExpr::Severity(sv) => {
            out.append(
                "EXISTS (SELECT 1 FROM issues JOIN tags ON tags.id = issues.tag_id WHERE issues.run_id = runs.id AND tags.severity = ?)",
            );
            params.push(SqlParam::SeverityName(*sv));
            true
        },
    }
}

impl TagExpr {
    /// Compile one positive-atomic row into a run-selection query: a
    /// SELECT over runs with one existence test per leaf, and the bound
    /// parameters in leaf order. Fails exactly on a residual generator.
    pub fn to_sql_select(&self) -> (r: Result<(String, Vec<SqlParam>), EvalError>)
        ensures
            r is Ok <==> sql_compilable(*self),
            r is Ok ==> r->Ok_0.0@ == "SELECT DISTINCT runs.id FROM runs WHERE "@
                + spec_sql_where(*self),
            r is Ok ==> params_like(r->Ok_0.1@, spec_sql_params(*self)),
    {
        let mut out = String::new();
        out.append("SELECT DISTINCT runs.id FROM runs WHERE ");
        let ghost pre_out = out@;
        let mut params: Vec<SqlParam> = Vec::new();
        if sql_where_exec(self, &mut out, &mut params) {
            proof {
                let sp = spec_sql_params(*self);
                assert forall|i: int| 0 <= i < params@.len() implies param_like(
                    #[trigger] params@[i],
                    sp[i],
                ) by {
                    assert(param_like(params@[0 + i], sp[i]));
                }
                assert(pre_out =~= "SELECT DISTINCT runs.id FROM runs WHERE "@);
            }
            Ok((out, params))
        } else {
            Err(EvalError { bad_pattern: false })
        }
    }
}

/// Whether the run with id `run_id` satisfies the expression: a `Tag`
/// leaf asks for some finding on the run whose tag name matches the
/// pattern, a `Severity` leaf for some finding of that severity;
/// generators never hold directly.
pub open spec fn spec_run_matches(
    issues: Seq<InDatabase<IssueInfo>>,
    tags: Seq<InDatabase<TagInfo>>,
    e: TagExpr,
    run_id: i64,
) -> bool
    decreases e,
{
    match e {
        TagExpr::Not(i) => !spec_run_matches(issues, tags, *i, run_id),
        TagExpr::And(l, r) => spec_run_matches(issues, tags, *l, run_id) && spec_run_matches(
            issues,
            tags,
            *r,
            run_id,
        ),
        TagExpr::Or(l, r) => spec_run_matches(issues, tags, *l, run_id) || spec_run_matches(
            issues,
            tags,
            *r,
            run_id,
        ),
        TagExpr::Tag(p) => exists|k: int|
            0 <= k < issues.len() && (#[trigger] issues[k]).item.run_id == run_id && has_id(
                tags,
                issues[k].item.tag_id,
            ) && regex_matches(p@, row_by_id(tags, issues[k].item.tag_id).item.name@),
        TagExpr::Severity(sv) => exists|k: int|
            0 <= k < issues.len() && (#[trigger] issues[k]).item.run_id == run_id && has_id(
                tags,
                issues[k].item.tag_id,
            ) && row_by_id(tags, issues[k].item.tag_id).item.severity == sv,
        _ => false,
    }
}

/// Evaluate one positive-atomic row directly against the cache for one
/// run.
fn run_matches_exec(db: &Database, e: &TagExpr, run_id: i64) -> (r: Result<bool, EvalError>)
    requires
        db.wf(),
    ensures
        r is Ok ==> r->Ok_0 == spec_run_matches(db.issues@, db.tags@, *e, run_id),
        sql_compilable(*e) && patterns_ok(*e) ==> r is Ok,
    decreases *e,
{
    match e {
        TagExpr::Not(i) => match run_matches_exec(db, i, run_id) {
            Ok(b) => Ok(!b),
            Err(er) => Err(er),
        },
        TagExpr::And(l, r) => match run_matches_exec(db, l, run_id) {
            Ok(false) => Ok(false),
            Ok(true) => run_matches_exec(db, r, run_id),
            Err(er) => Err(er),
        },
        TagExpr::Or(l, r) => match run_matches_exec(db, l, run_id) {
            Ok(true) => Ok(true),
            Ok(false) => run_matches_exec(db, r, run_id),
            Err(er) => Err(er),
        },
        TagExpr::TagSet(_) => Err(EvalError { bad_pattern: false }),
        TagExpr::SeveritySet(_) => Err(EvalError { bad_pattern: false }),
        TagExpr::Tag(p) => {
            proof {
                assert(*e == TagExpr::Tag(*p));
                assert(patterns_ok(*e) == regex_ok(p@));
            }
            let mut k: usize = 0;
            while k < db.issues.len()
                invariant
                    db.wf(),
                    *e == TagExpr::Tag(*p),
                    k <= db.issues@.len(),
                    forall|i: int|
                        0 <= i < k ==> !((#[trigger] db.issues@[i]).item.run_id == run_id && has_id(
                            db.tags@,
                            db.issues@[i].item.tag_id,
                        ) && regex_matches(
                            p@,
                            row_by_id(db.tags@, db.issues@[i].item.tag_id).item.name@,
                        )),
                decreases db.issues@.len() - k,
            {
                if db.issues[k].item.run_id == run_id {
                    proof {
                        assert(issue_contained(
                            db.runs@,
                            db.tags@,
                            db.artifacts@,
                            db.issues@[k as int].item,
                        ));
                    }
                    let tw = match crate::db::purge::find_by_id(&db.tags, db.issues[k].item.tag_id) {
                        Some(w) => w,
                        None => {
                            proof {
                                assert(false);
                            }
                            0
                        },
                    };
                    match regex_match_once(p, &db.tags[tw].item.name) {
                        Some(true) => {
                            proof {
                                assert(db.issues@[k as int].item.run_id == run_id);
                                assert(row_by_id(db.tags@, db.issues@[k as int].item.tag_id)
                                    == db.tags@[tw as int]);
                                assert(spec_run_matches(db.issues@, db.tags@, *e, run_id));
                            }
                            return Ok(true);
                        },
                        Some(false) => (),
                        None => {
                            proof {
                                assert(!regex_ok(p@));
                            }
                            return Err(EvalError { bad_pattern: true });
                        },
                    }
                }
                k += 1;
            }
            Ok(false)
        },
        TagExpr::Severity(sv) => {
            proof {
                assert(*e == TagExpr::Severity(*sv));
            }
            let mut k: usize = 0;
            while k < db.issues.len()
                invariant
                    db.wf(),
                    *e == TagExpr::Severity(*sv),
                    k <= db.issues@.len(),
                    forall|i: int|
                        0 <= i < k ==> !((#[trigger] db.issues@[i]).item.run_id == run_id && has_id(
                            db.tags@,
                            db.issues@[i].item.tag_id,
                        ) && row_by_id(db.tags@, db.issues@[i].item.tag_id).item.severity == sv),
                decreases db.issues@.len() - k,
            {
                if db.issues[k].item.run_id == run_id {
                    proof {
                        assert(issue_contained(
                            db.runs@,
                            db.tags@,
                            db.artifacts@,
                            db.issues@[k as int].item,
                        ));
                    }
                    let tw = match crate::db::purge::find_by_id(&db.tags, db.issues[k].item.tag_id) {
                        Some(w) => w,
                        None => {
                            proof {
                                assert(false);
                            }
                            0
                        },
                    };
                    if db.tags[tw].item.severity == *sv {
                        proof {
                            assert(db.issues@[k as int].item.run_id == run_id);
                            assert(row_by_id(db.tags@, db.issues@[k as int].item.tag_id)
                                == db.tags@[tw as int]);
                            assert(spec_run_matches(db.issues@, db.tags@, *e, run_id));
                        }
                        return Ok(true);
                    }
                }
                k += 1;
            }
            Ok(false)
        },
    }
}

/// Select the ids of every run that satisfies the row expression, in
/// table order.
pub fn get_run_ids_by_expr(db: &Database, e: &TagExpr) -> (r: Result<Vec<i64>, EvalError>)
    requires
        db.wf(),
    ensures
        sql_compilable(*e) && patterns_ok(*e) ==> r is Ok,
        r is Ok ==> {
            let ids = r->Ok_0@;
            &&& forall|i: int, j: int| 0 <= i < j < ids.len() ==> #[trigger] ids[i] != #[trigger] ids[j]
            &&& forall|w: int|
                0 <= w < db.runs@.len() ==> (ids.contains(#[trigger] db.runs@[w].id)
                    == spec_run_matches(db.issues@, db.tags@, *e, db.runs@[w].id))
        },
{
    let mut ids: Vec<i64> = Vec::new();
    let mut w: usize = 0;
    while w < db.runs.len()
        invariant
            db.wf(),
            w <= db.runs@.len(),
            forall|i: int, j: int|
                0 <= i < j < ids@.len() ==> #[trigger] ids@[i] != #[trigger] ids@[j],
            forall|i: int|
                0 <= i < ids@.len() ==> exists|v: int|
                    0 <= v < w && #[trigger] ids@[i] == db.runs@[v].id,
            forall|v: int|
                0 <= v < w ==> (ids@.contains(#[trigger] db.runs@[v].id) == spec_run_matches(
                    db.issues@,
                    db.tags@,
                    *e,
                    db.runs@[v].id,
                )),
        decreases db.runs@.len() - w,
    {
        let rid = db.runs[w].id;
        let matched = match run_matches_exec(db, e, rid) {
            Ok(b) => b,
            Err(er) => {
                return Err(er);
            },
        };
        let ghost pre_ids = ids@;
        if matched {
            ids.push(rid);
        }
        proof {
            assert(db.runs@[w as int].id == rid);
            if matched {
                assert(ids@[ids@.len() - 1] == rid);
                assert forall|i: int, j: int| 0 <= i < j < ids@.len() implies #[trigger] ids@[i]
                    != #[trigger] ids@[j] by {
                    if j == ids@.len() - 1 {
                        assert(ids@[i] == pre_ids[i]);
                        let v = choose|v: int|
                            0 <= v < w && #[trigger] pre_ids[i] == db.runs@[v].id;
                        assert(db.runs@[v].id != db.runs@[w as int].id);
                    } else {
                        assert(ids@[i] == pre_ids[i] && ids@[j] == pre_ids[j]);
                    }
                }
            } else {
                assert(!pre_ids.contains(rid)) by {
                    if pre_ids.contains(rid) {
                        let i = choose|i: int| 0 <= i < pre_ids.len() && pre_ids[i] == rid;
                        let v = choose|v: int|
                            0 <= v < w && #[trigger] pre_ids[i] == db.runs@[v].id;
                        assert(db.runs@[v].id != db.runs@[w as int].id);
                    }
                }
            }
            assert forall|v: int|
                0 <= v < w + 1 implies (ids@.contains(#[trigger] db.runs@[v].id)
                == spec_run_matches(db.issues@, db.tags@, *e, db.runs@[v].id)) by {
                if v < w {
                    if pre_ids.contains(db.runs@[v].id) {
                        let i = choose|i: int|
                            0 <= i < pre_ids.len() && pre_ids[i] == db.runs@[v].id;
                        assert(ids@[i] == db.runs@[v].id);
                        assert(ids@.contains(db.runs@[v].id));
                    }
                    if ids@.contains(db.runs@[v].id) {
                        let i = choose|i: int| 0 <= i < ids@.len() && ids@[i] == db.runs@[v].id;
                        if matched && i == ids@.len() - 1 {
                            assert(db.runs@[v].id == rid);
                            assert(db.runs@[v].id != db.runs@[w as int].id);
                        } else {
                            assert(ids@[i] == pre_ids[i]);
                            assert(pre_ids.contains(db.runs@[v].id));
                        }
                    }
                } else {
                    if matched {
                        assert(ids@[ids@.len() - 1] == db.runs@[v].id);
                        assert(ids@.contains(db.runs@[v].id));
                    } else {
                        if ids@.contains(db.runs@[v].id) {
                            assert(pre_ids.contains(rid));
                        }
                    }
                }
            }
        }
        w += 1;
    }
    Ok(ids)
}

} // verus!
