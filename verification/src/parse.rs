//! The pattern index: compiled regex patterns, a composite multi-pattern
//! matcher, the catalog fingerprint, deduplicated findings, and the edit
//! distance used by the similarity engine.

use vstd::prelude::*;

use crate::config::{ConfigTag, Field, Severity};
use crate::db::{
    bytes_eq, clone_bytes, copy_range, has_id, has_tag_named, issue_contained, row_by_id, tag_like,
    tag_rows_like, tag_unreferenced, tag_update_safe, Artifact, BlobFormat, Database, InDatabase,
    Issue, IssueInfo, Run, TagInfo,
};
use crate::db::purge::find_by_id;

verus! {

#[verifier::external_type_specification]
#[verifier::external_body]
pub struct ExRegex(regex::bytes::Regex);

#[verifier::external_type_specification]
#[verifier::external_body]
pub struct ExRegexSet(regex::bytes::RegexSet);

/// Whether `pattern` is UTF-8 and a regex the engine compiles.
pub uninterp spec fn regex_ok(pattern: Seq<u8>) -> bool;

/// Whether the composite matcher builds over this list of pattern
/// sources.
pub uninterp spec fn regex_set_ok(sources: Seq<Seq<u8>>) -> bool;

/// The non-overlapping, leftmost-first match spans that the engine
/// reports for `pattern` over the haystack `text`, as half-open byte
/// ranges.
pub uninterp spec fn regex_spans(pattern: Seq<u8>, text: Seq<u8>) -> Seq<(usize, usize)>;

/// Whether `pattern` matches somewhere in `text`: exactly when the match
/// span list is non-empty.
pub open spec fn regex_matches(pattern: Seq<u8>, text: Seq<u8>) -> bool {
    regex_spans(pattern, text).len() > 0
}

/// Every span is a well-formed half-open range within a text of length
/// `n`.
pub open spec fn spans_within(spans: Seq<(usize, usize)>, n: nat) -> bool {
    forall|i: int| 0 <= i < spans.len() ==> (#[trigger] spans[i]).0 <= spans[i].1 <= n
}

/// A compiled pattern that reports an item of type `T` when it matches.
pub struct Pattern<T> {
    /// Compiled regex; always compiled from `source`.
    regex: regex::bytes::Regex,
    /// The regex source text the pattern was compiled from.
    source: Vec<u8>,
    /// Found item.
    item: T,
}

impl<T> Pattern<T> {
    /// The pattern's source text, for specifications.
    pub closed spec fn spec_source(self) -> Seq<u8> {
        self.source@
    }

    /// The pattern's item, for specifications.
    pub closed spec fn spec_item(self) -> T {
        self.item
    }

    /// The pattern's source text.
    pub fn source(&self) -> (r: &Vec<u8>)
        ensures
            r@ == self.spec_source(),
    {
        &self.source
    }

    /// A reference to the pattern's item.
    pub fn item(&self) -> (r: &T)
        ensures
            *r == self.spec_item(),
    {
        &self.item
    }

    /// Compile a new pattern from its source text.
    ///
    /// Relies on `regex::bytes::Regex::new`: compilation succeeds exactly
    /// on patterns that are UTF-8 and valid regex syntax.
    #[verifier::external_body]
    pub fn new(item: T, source: Vec<u8>) -> (r: Option<Pattern<T>>)
        ensures
            r is Some <==> regex_ok(source@),
            r is Some ==> r->0.spec_source() == source@ && r->0.spec_item() == item,
    {
        match core::str::from_utf8(&source) {
            Ok(text) => match regex::bytes::Regex::new(text) {
                Ok(re) => Some(Pattern { regex: re, source, item }),
                Err(_) => None,
            },
            Err(_) => None,
        }
    }

    /// Report every match span of this pattern over `field`.
    ///
    /// Relies on `regex::bytes::Regex::find_iter`: the non-overlapping
    /// match spans are a function of the pattern source and the haystack
    /// alone, and every span is a half-open byte range within the
    /// haystack.
    #[verifier::external_body]
    pub fn grep_substr(&self, field: &Vec<u8>) -> (r: Vec<(usize, usize)>)
        ensures
            r@ == regex_spans(self.spec_source(), field@),
            spans_within(r@, field@.len()),
    {
        self.regex.find_iter(field).map(|m| (m.start(), m.end())).collect()
    }
}

/// A set of patterns behind one composite multi-pattern matcher.
pub struct PatternSet<T> {
    /// The patterns, in declaration order.
    patterns: Vec<Pattern<T>>,
    /// Composite matcher built over all pattern sources.
    set: regex::bytes::RegexSet,
}

impl<T> PatternSet<T> {
    /// The patterns of the set in declaration order, for specifications.
    pub closed spec fn spec_patterns(self) -> Seq<Pattern<T>> {
        self.patterns@
    }

    /// The pattern at index `i`.
    pub fn pattern_at(&self, i: usize) -> (r: &Pattern<T>)
        requires
            i < self.spec_patterns().len(),
        ensures
            *r == self.spec_patterns()[i as int],
    {
        &self.patterns[i]
    }

    /// Build the composite matcher over the given patterns.
    ///
    /// Relies on `regex::bytes::RegexSet::new`, applied to the same
    /// sources the individual patterns were compiled from: whether the
    /// set builds is a function of that source list alone.
    #[verifier::external_body]
    pub fn new(patterns: Vec<Pattern<T>>) -> (r: Option<PatternSet<T>>)
        ensures
            r is Some <==> regex_set_ok(
                Seq::new(patterns@.len(), |i: int| patterns@[i].spec_source()),
            ),
            r is Some ==> r->0.spec_patterns() == patterns@,
    {
        let sources: Vec<&str> = patterns
            .iter()
            .map(|p| p.regex.as_str())
            .collect();
        match regex::bytes::RegexSet::new(sources) {
            Ok(set) => Some(PatternSet { patterns, set }),
            Err(_) => None,
        }
    }

    /// The indices of the patterns that match `field`, ascending, in one
    /// pass over the haystack.
    ///
    /// Relies on `regex::bytes::RegexSet::matches`: an index is reported
    /// exactly when the pattern at that index matches the haystack, and
    /// the iterator yields indices in ascending order.
    #[verifier::external_body]
    pub fn grep_matches(&self, field: &Vec<u8>) -> (r: Vec<usize>)
        ensures
            forall|i: int| 0 <= i < r@.len() ==> #[trigger] r@[i] < self.spec_patterns().len(),
            forall|i: int, j: int| 0 <= i < j < r@.len() ==> #[trigger] r@[i] < #[trigger] r@[j],
            forall|k: int|
                0 <= k < self.spec_patterns().len() ==> (r@.contains(k as usize) <==> regex_matches(
                    #[trigger] self.spec_patterns()[k].spec_source(),
                    field@,
                )),
    {
        self.set.matches(field).into_iter().collect()
    }

    /// How many patterns the set holds.
    pub fn len(&self) -> (r: usize)
        ensures
            r == self.spec_patterns().len(),
    {
        self.patterns.len()
    }
}

/// A tag of the catalog with its compiled pattern.
pub type Tag = Pattern<InDatabase<TagInfo>>;

/// The tag catalog: a pattern set over stored tags.
pub type TagSet = PatternSet<InDatabase<TagInfo>>;

/// One step of the 64-bit FNV-1a fold.
pub open spec fn fnv_step(h: u64, b: u8) -> u64 {
    vstd::wrapping::u64_specs::wrapping_mul(h ^ (b as u64), 0x100000001b3)
}

/// FNV-1a fold of a whole byte string onto the accumulator `h`.
pub open spec fn fnv_bytes(h: u64, s: Seq<u8>) -> u64
    decreases s.len(),
{
    if s.len() == 0 {
        h
    } else {
        fnv_bytes(fnv_step(h, s[0]), s.skip(1))
    }
}

/// Fold one catalog entry: its tag name, then its pattern source, each
/// closed with a separator so that entry boundaries cannot be confused.
pub open spec fn fingerprint_entry(h: u64, name: Seq<u8>, source: Seq<u8>) -> u64 {
    fnv_step(fnv_bytes(fnv_step(fnv_bytes(h, name), 0), source), 1)
}

/// The catalog fingerprint folded over entries `i..` in declaration
/// order. It reads nothing of a tag but its name and its pattern source.
pub open spec fn fingerprint_from(h: u64, patterns: Seq<Tag>, i: int) -> u64
    decreases patterns.len() - i,
{
    if i < 0 || i >= patterns.len() {
        h
    } else {
        fingerprint_from(
            fingerprint_entry(h, patterns[i].spec_item().item.name@, patterns[i].spec_source()),
            patterns,
            i + 1,
        )
    }
}

/// The schema fingerprint of a whole catalog.
pub open spec fn spec_schema(patterns: Seq<Tag>) -> u64 {
    fingerprint_from(0xcbf29ce484222325, patterns, 0)
}

/// Fold a byte string into the running fingerprint.
fn fnv_bytes_exec(h0: u64, s: &Vec<u8>) -> (r: u64)
    ensures
        r == fnv_bytes(h0, s@),
{
    let mut h = h0;
    let mut i: usize = 0;
    proof {
        assert(s@.skip(0) =~= s@);
    }
    while i < s.len()
        invariant
            i <= s@.len(),
            fnv_bytes(h0, s@) == fnv_bytes(h, s@.skip(i as int)),
        decreases s@.len() - i,
    {
        proof {
            assert(s@.skip(i as int)[0] == s@[i as int]);
            assert(s@.skip(i as int).skip(1) =~= s@.skip(i as int + 1));
        }
        h = (h ^ (s[i] as u64)).wrapping_mul(0x100000001b3);
        i += 1;
    }
    proof {
        assert(s@.skip(i as int).len() == 0);
    }
    h
}

impl PatternSet<InDatabase<TagInfo>> {
    /// The catalog's schema fingerprint: a 64-bit content hash of each
    /// tag's name and pattern source in declaration order, and of nothing
    /// else.
    pub fn schema(&self) -> (r: u64)
        ensures
            r == spec_schema(self.spec_patterns()),
    {
        let mut h: u64 = 0xcbf29ce484222325;
        let mut i: usize = 0;
        while i < self.patterns.len()
            invariant
                i <= self.patterns@.len(),
                self.spec_patterns() == self.patterns@,
                spec_schema(self.patterns@) == fingerprint_from(h, self.patterns@, i as int),
            decreases self.patterns@.len() - i,
        {
            let hn = fnv_bytes_exec(h, &self.patterns[i].item.item.name);
            let hn2 = (hn ^ 0u64).wrapping_mul(0x100000001b3);
            let hs = fnv_bytes_exec(hn2, &self.patterns[i].source);
            h = (hs ^ 1u64).wrapping_mul(0x100000001b3);
            i += 1;
        }
        h
    }
}

/// The fingerprint is pure: it depends on each tag's name and pattern
/// source, in declaration order, and on nothing else. Two catalogs that
/// agree on those agree on the fingerprint.
pub proof fn lemma_fingerprint_pure(a: Seq<Tag>, b: Seq<Tag>)
    requires
        a.len() == b.len(),
        forall|i: int|
            0 <= i < a.len() ==> #[trigger] a[i].spec_item().item.name@
                == b[i].spec_item().item.name@ && a[i].spec_source() == b[i].spec_source(),
    ensures
        spec_schema(a) == spec_schema(b),
{
    lemma_fingerprint_from_pure(a, b, 0xcbf29ce484222325, 0);
}

/// Helper for `lemma_fingerprint_pure`: the tail folds agree from any
/// position and accumulator.
pub proof fn lemma_fingerprint_from_pure(a: Seq<Tag>, b: Seq<Tag>, h: u64, i: int)
    requires
        a.len() == b.len(),
        forall|k: int|
            0 <= k < a.len() ==> #[trigger] a[k].spec_item().item.name@
                == b[k].spec_item().item.name@ && a[k].spec_source() == b[k].spec_source(),
    ensures
        fingerprint_from(h, a, i) == fingerprint_from(h, b, i),
    decreases a.len() - i,
{
    if 0 <= i < a.len() {
        lemma_fingerprint_from_pure(
            a,
            b,
            fingerprint_entry(h, a[i].spec_item().item.name@, a[i].spec_source()),
            i + 1,
        );
    }
}


/// The smallest of three values.
pub open spec fn min3(a: int, b: int, c: int) -> int {
    if a <= b && a <= c {
        a
    } else if b <= c {
        b
    } else {
        c
    }
}

/// The byte-level Levenshtein edit distance between two byte strings.
pub open spec fn lev(a: Seq<u8>, b: Seq<u8>) -> int
    decreases a.len(), b.len(),
{
    if a.len() == 0 {
        b.len() as int
    } else if b.len() == 0 {
        a.len() as int
    } else {
        let del = lev(a.drop_last(), b) + 1;
        let ins = lev(a, b.drop_last()) + 1;
        let sub = lev(a.drop_last(), b.drop_last()) + (if a.last() == b.last() {
            0int
        } else {
            1int
        });
        min3(del, ins, sub)
    }
}

/// The edit distance never exceeds the longer input's length and is never
/// negative.
pub proof fn lemma_lev_bound(a: Seq<u8>, b: Seq<u8>)
    ensures
        0 <= lev(a, b),
        lev(a, b) <= a.len() || lev(a, b) <= b.len(),
        a.len() <= b.len() ==> lev(a, b) <= b.len(),
        b.len() <= a.len() ==> lev(a, b) <= a.len(),
    decreases a.len(), b.len(),
{
    if a.len() > 0 && b.len() > 0 {
        lemma_lev_bound(a.drop_last(), b);
        lemma_lev_bound(a, b.drop_last());
        lemma_lev_bound(a.drop_last(), b.drop_last());
    }
}

/// The byte-level Levenshtein distance, by the two-row dynamic program.
pub fn levenshtein_distance(a: &[u8], b: &[u8]) -> (r: usize)
    requires
        a@.len() < usize::MAX,
        b@.len() < usize::MAX,
    ensures
        r == lev(a@, b@),
{
    let b_len = b.len();
    if b_len == 0 {
        return a.len();
    }
    let mut v1: Vec<usize> = Vec::new();
    let mut j: usize = 0;
    while j <= b_len
        invariant
            j <= b_len + 1,
            b_len == b@.len(),
            b@.len() < usize::MAX,
            v1@.len() == j,
            forall|m: int| 0 <= m < j ==> #[trigger] v1@[m] == m,
        decreases b_len + 1 - j,
    {
        v1.push(j);
        j += 1;
    }
    proof {
        assert forall|m: int| 0 <= m <= b_len as int implies #[trigger] v1@[m] == lev(
            a@.subrange(0, 0),
            b@.subrange(0, m),
        ) by {
            assert(a@.subrange(0, 0).len() == 0);
            assert(b@.subrange(0, m).len() == m);
        }
    }
    let mut i: usize = 0;
    while i < a.len()
        invariant
            i <= a@.len(),
            b_len == b@.len(),
            a@.len() < usize::MAX,
            b@.len() < usize::MAX,
            b_len > 0,
            v1@.len() == b_len + 1,
            forall|m: int|
                0 <= m <= b_len as int ==> #[trigger] v1@[m] == lev(
                    a@.subrange(0, i as int),
                    b@.subrange(0, m),
                ),
        decreases a@.len() - i,
    {
        let c1 = a[i];
        let mut v0 = v1[0];
        v1.set(0, i + 1);
        proof {
            assert(a@.subrange(0, i as int + 1).len() == i + 1);
            assert(b@.subrange(0, 0).len() == 0);
            assert(v1@[0] == lev(a@.subrange(0, i as int + 1), b@.subrange(0, 0)));
        }
        let mut j: usize = 0;
        while j < b_len
            invariant
                j <= b_len,
                i < a@.len(),
                b_len == b@.len(),
                a@.len() < usize::MAX,
                b@.len() < usize::MAX,
                v1@.len() == b_len + 1,
                c1 == a@[i as int],
                forall|m: int|
                    0 <= m <= j as int ==> #[trigger] v1@[m] == lev(
                        a@.subrange(0, i as int + 1),
                        b@.subrange(0, m),
                    ),
                forall|m: int|
                    j < m <= b_len as int ==> #[trigger] v1@[m] == lev(
                        a@.subrange(0, i as int),
                        b@.subrange(0, m),
                    ),
                v0 == lev(a@.subrange(0, i as int), b@.subrange(0, j as int)),
            decreases b_len - j,
        {
            let c2 = b[j];
            proof {
                lemma_lev_bound(a@.subrange(0, i as int + 1), b@.subrange(0, j as int));
                lemma_lev_bound(a@.subrange(0, i as int), b@.subrange(0, j as int + 1));
                lemma_lev_bound(a@.subrange(0, i as int), b@.subrange(0, j as int));
            }
            let del_cost = v1[j] + 1;
            let ins_cost = v1[j + 1] + 1;
            let sub_cost = if c1 == c2 {
                v0
            } else {
                v0 + 1
            };
            v0 = v1[j + 1];
            let mut best = del_cost;
            if ins_cost < best {
                best = ins_cost;
            }
            if sub_cost < best {
                best = sub_cost;
            }
            v1.set(j + 1, best);
            proof {
                let ap = a@.subrange(0, i as int + 1);
                let bp = b@.subrange(0, j as int + 1);
                assert(ap.drop_last() =~= a@.subrange(0, i as int));
                assert(bp.drop_last() =~= b@.subrange(0, j as int));
                assert(ap.last() == a@[i as int]);
                assert(bp.last() == b@[j as int]);
                assert(v1@[j as int + 1] == lev(ap, bp));
            }
            j += 1;
        }
        i += 1;
    }
    let r = v1[b_len];
    proof {
        assert(a@.subrange(0, a@.len() as int) =~= a@);
        assert(b@.subrange(0, b_len as int) =~= b@);
    }
    r
}

/// One deduplicated occurrence of a tag's pattern in a field: the byte
/// range of the first occurrence of this exact substring, plus how many
/// byte-identical repeats the field held.
#[derive(Clone, Copy, Debug, PartialEq, Eq, Structural)]
pub struct Finding {
    /// Start of the snippet, inclusive byte offset.
    pub start: usize,
    /// End of the snippet, exclusive byte offset.
    pub end: usize,
    /// Id of the tag whose pattern matched.
    pub tag_id: i64,
    /// Number of further byte-identical matches: occurrences minus one.
    pub duplicates: u64,
}

/// The bytes a span denotes within `text`.
pub open spec fn span_text(text: Seq<u8>, start: usize, end: usize) -> Seq<u8> {
    text.subrange(start as int, end as int)
}

/// Whether some accumulated finding already denotes the substring `t`.
pub open spec fn finding_has_text(text: Seq<u8>, acc: Seq<Finding>, t: Seq<u8>) -> bool {
    exists|i: int|
        0 <= i < acc.len() && span_text(text, (#[trigger] acc[i]).start, acc[i].end) == t
}

/// Count one more occurrence on the finding that denotes `t`.
pub open spec fn bump_finding(text: Seq<u8>, acc: Seq<Finding>, t: Seq<u8>) -> Seq<Finding> {
    let i = choose|i: int|
        0 <= i < acc.len() && span_text(text, (#[trigger] acc[i]).start, acc[i].end) == t;
    acc.update(
        i,
        Finding {
            start: acc[i].start,
            end: acc[i].end,
            tag_id: acc[i].tag_id,
            duplicates: (acc[i].duplicates + 1) as u64,
        },
    )
}

/// Fold the match spans from position `k` on into deduplicated findings:
/// byte-identical substrings collapse onto the first occurrence, counting
/// repeats in `duplicates`.
pub open spec fn dedup_from(
    text: Seq<u8>,
    spans: Seq<(usize, usize)>,
    tag_id: i64,
    k: int,
    acc: Seq<Finding>,
) -> Seq<Finding>
    decreases spans.len() - k,
{
    if k < 0 || k >= spans.len() {
        acc
    } else {
        let t = span_text(text, spans[k].0, spans[k].1);
        let acc2 = if finding_has_text(text, acc, t) {
            bump_finding(text, acc, t)
        } else {
            acc.push(Finding { start: spans[k].0, end: spans[k].1, tag_id, duplicates: 0 })
        };
        dedup_from(text, spans, tag_id, k + 1, acc2)
    }
}

/// The deduplicated findings of one pattern over one field.
pub open spec fn spec_grep_findings(text: Seq<u8>, pattern_src: Seq<u8>, tag_id: i64) -> Seq<
    Finding,
> {
    dedup_from(text, regex_spans(pattern_src, text), tag_id, 0, Seq::empty())
}

/// Whether two byte ranges of `v` hold the same bytes.
fn ranges_eq(v: &Vec<u8>, s1: usize, e1: usize, s2: usize, e2: usize) -> (r: bool)
    requires
        s1 <= e1 <= v@.len(),
        s2 <= e2 <= v@.len(),
    ensures
        r == (v@.subrange(s1 as int, e1 as int) == v@.subrange(s2 as int, e2 as int)),
{
    if e1 - s1 != e2 - s2 {
        proof {
            assert(v@.subrange(s1 as int, e1 as int).len() != v@.subrange(
                s2 as int,
                e2 as int,
            ).len());
        }
        return false;
    }
    let n = e1 - s1;
    let mut k: usize = 0;
    while k < n
        invariant
            k <= n,
            s1 + n == e1 <= v@.len(),
            s2 + n == e2 <= v@.len(),
            forall|m: int| 0 <= m < k ==> #[trigger] v@[s1 + m] == v@[s2 + m],
        decreases n - k,
    {
        if v[s1 + k] != v[s2 + k] {
            proof {
                assert(v@.subrange(s1 as int, e1 as int)[k as int] == v@[s1 + k]);
                assert(v@.subrange(s2 as int, e2 as int)[k as int] == v@[s2 + k]);
            }
            return false;
        }
        k += 1;
    }
    proof {
        assert forall|m: int|
            0 <= m < n implies v@.subrange(s1 as int, e1 as int)[m] == v@.subrange(
            s2 as int,
            e2 as int,
        )[m] by {
            assert(v@[s1 + m] == v@[s2 + m]);
        }
        assert(v@.subrange(s1 as int, e1 as int) =~= v@.subrange(s2 as int, e2 as int));
    }
    true
}

impl Pattern<InDatabase<TagInfo>> {
    /// Grep `field` for this tag's findings: every match span, with
    /// byte-identical substrings collapsed onto their first occurrence and
    /// counted in `duplicates`.
    pub fn grep_issue(&self, field: &Vec<u8>) -> (r: Vec<Finding>)
        ensures
            r@ == spec_grep_findings(field@, self.spec_source(), self.spec_item().id),
            forall|i: int|
                0 <= i < r@.len() ==> (#[trigger] r@[i]).start <= r@[i].end <= field@.len()
                    && r@[i].tag_id == self.spec_item().id,
    {
        let tag_id = self.item().id;
        let spans = self.grep_substr(field);
        let ghost gspans = spans@;
        let mut acc: Vec<Finding> = Vec::new();
        let mut k: usize = 0;
        while k < spans.len()
            invariant
                k <= gspans.len(),
                spans@ == gspans,
                gspans == regex_spans(self.spec_source(), field@),
                spans_within(gspans, field@.len()),
                tag_id == self.spec_item().id,
                spec_grep_findings(field@, self.spec_source(), self.spec_item().id) == dedup_from(
                    field@,
                    gspans,
                    tag_id,
                    k as int,
                    acc@,
                ),
                forall|i: int|
                    0 <= i < acc@.len() ==> (#[trigger] acc@[i]).start <= acc@[i].end
                        <= field@.len() && acc@[i].tag_id == tag_id && acc@[i].duplicates < k,
                forall|i: int, j: int|
                    0 <= i < j < acc@.len() ==> span_text(
                        field@,
                        (#[trigger] acc@[i]).start,
                        acc@[i].end,
                    ) != span_text(field@, (#[trigger] acc@[j]).start, acc@[j].end),
            decreases gspans.len() - k,
        {
            let (s, e) = spans[k];
            let ghost t = span_text(field@, s, e);
            let mut found: Option<usize> = None;
            let mut w: usize = 0;
            while w < acc.len()
                invariant
                    w <= acc@.len(),
                    k < gspans.len(),
                    spans@ == gspans,
                    spans_within(gspans, field@.len()),
                    s == gspans[k as int].0,
                    e == gspans[k as int].1,
                    s <= e <= field@.len(),
                    t == span_text(field@, s, e),
                    forall|i: int|
                        0 <= i < acc@.len() ==> (#[trigger] acc@[i]).start <= acc@[i].end
                            <= field@.len(),
                    match found {
                        Some(fi) => fi < w && span_text(field@, acc@[fi as int].start, acc@[fi as int].end)
                            == t,
                        None => forall|i: int|
                            0 <= i < w ==> span_text(field@, (#[trigger] acc@[i]).start, acc@[i].end)
                                != t,
                    },
                decreases acc@.len() - w,
            {
                if found.is_none() {
                    let f = acc[w];
                    if ranges_eq(field, f.start, f.end, s, e) {
                        found = Some(w);
                    }
                }
                w += 1;
            }
            let ghost pre_acc = acc@;
            match found {
                Some(fi) => {
                    let f = acc[fi];
                    proof {
                        assert(finding_has_text(field@, pre_acc, t));
                        let ci = choose|ci: int|
                            0 <= ci < pre_acc.len() && span_text(
                                field@,
                                (#[trigger] pre_acc[ci]).start,
                                pre_acc[ci].end,
                            ) == t;
                        assert(ci == fi as int) by {
                            if ci != fi as int {
                                assert(span_text(field@, pre_acc[ci].start, pre_acc[ci].end)
                                    != span_text(field@, pre_acc[fi as int].start, pre_acc[fi as int].end));
                            }
                        }
                    }
                    acc.set(
                        fi,
                        Finding {
                            start: f.start,
                            end: f.end,
                            tag_id: f.tag_id,
                            duplicates: f.duplicates + 1,
                        },
                    );
                    proof {
                        assert(acc@ == bump_finding(field@, pre_acc, t));
                    }
                },
                None => {
                    proof {
                        assert(!finding_has_text(field@, pre_acc, t));
                    }
                    acc.push(Finding { start: s, end: e, tag_id, duplicates: 0 });
                },
            }
            k += 1;
        }
        proof {
            assert(dedup_from(field@, gspans, tag_id, k as int, acc@) == acc@);
        }
        acc
    }
}


/// Whether `pattern` compiles, without keeping the compiled form.
///
/// Relies on `regex::bytes::Regex::new`: compilation succeeds exactly on
/// patterns that are UTF-8 and valid regex syntax.
#[verifier::external_body]
pub fn regex_check(pattern: &Vec<u8>) -> (r: bool)
    ensures
        r == regex_ok(pattern@),
{
    match core::str::from_utf8(pattern) {
        Ok(text) => regex::bytes::Regex::new(text).is_ok(),
        Err(_) => false,
    }
}

/// Whether the pattern matches somewhere in `text`, compiling it on the
/// fly; absent exactly when the pattern does not compile.
///
/// Relies on `regex::bytes::Regex::{new, is_match}`: a regex reports a
/// match exactly when its match span list is non-empty, as a function of
/// pattern source and haystack alone.
#[verifier::external_body]
pub fn regex_match_once(pattern: &Vec<u8>, text: &Vec<u8>) -> (r: Option<bool>)
    ensures
        r is Some <==> regex_ok(pattern@),
        r is Some ==> r->0 == regex_matches(pattern@, text@),
{
    match core::str::from_utf8(pattern) {
        Ok(p) => match regex::bytes::Regex::new(p) {
            Ok(re) => Some(re.is_match(text)),
            Err(_) => None,
        },
        Err(_) => None,
    }
}

/// Whether `s` is valid UTF-8.
pub uninterp spec fn is_utf8(s: Seq<u8>) -> bool;

/// Whether the bytes hold the opening of an SVG element somewhere.
pub open spec fn contains_svg(c: Seq<u8>) -> bool {
    exists|i: int|
        0 <= i && i + 4 <= c.len() && #[trigger] c.subrange(i, i + 4) == seq![
            60u8,
            115u8,
            118u8,
            103u8,
        ]
}

/// The blob kind of artifact contents: empty, the PNG magic, SVG markup,
/// other UTF-8 text, or unknown binary.
pub open spec fn spec_blob_format(c: Seq<u8>) -> BlobFormat {
    if c.len() == 0 {
        BlobFormat::Null
    } else if c.len() >= 8 && c[0] == 0x89 && c[1] == 0x50 && c[2] == 0x4e && c[3] == 0x47 && c[4]
        == 0x0d && c[5] == 0x0a && c[6] == 0x1a && c[7] == 0x0a {
        BlobFormat::Png
    } else if is_utf8(c) && contains_svg(c) {
        BlobFormat::Svg
    } else if is_utf8(c) {
        BlobFormat::Utf8
    } else {
        BlobFormat::Unknown
    }
}

impl Artifact {
    /// Judge the blob kind of this artifact's contents.
    pub fn blob_format(&self) -> (r: BlobFormat)
        ensures
            r == spec_blob_format(self.contents@),
    {
        let c = &self.contents;
        if c.len() == 0 {
            return BlobFormat::Null;
        }
        if c.len() >= 8 && c[0] == 0x89 && c[1] == 0x50 && c[2] == 0x4e && c[3] == 0x47 && c[4]
            == 0x0d && c[5] == 0x0a && c[6] == 0x1a && c[7] == 0x0a {
            return BlobFormat::Png;
        }
        if !utf8_ok(c) {
            return BlobFormat::Unknown;
        }
        let mut i: usize = 0;
        proof {
            assert(spec_blob_format(c@) == if contains_svg(c@) {
                BlobFormat::Svg
            } else {
                BlobFormat::Utf8
            });
        }
        while c.len() - i >= 4
            invariant
                c@ == self.contents@,
                i <= c@.len(),
                spec_blob_format(c@) == (if contains_svg(c@) {
                    BlobFormat::Svg
                } else {
                    BlobFormat::Utf8
                }),
                forall|k: int|
                    0 <= k < i ==> #[trigger] c@.subrange(k, k + 4) != seq![
                        60u8,
                        115u8,
                        118u8,
                        103u8,
                    ],
            decreases c@.len() - i,
        {
            if c[i] == 60 && c[i + 1] == 115 && c[i + 2] == 118 && c[i + 3] == 103 {
                proof {
                    assert(c@.subrange(i as int, i as int + 4) =~= seq![60u8, 115u8, 118u8, 103u8]);
                    assert(0 <= i as int && i as int + 4 <= c@.len());
                    assert(contains_svg(c@));
                }
                return BlobFormat::Svg;
            }
            proof {
                assert(c@.subrange(i as int, i as int + 4)[0] == c@[i as int]);
                assert(c@.subrange(i as int, i as int + 4)[1] == c@[i as int + 1]);
                assert(c@.subrange(i as int, i as int + 4)[2] == c@[i as int + 2]);
                assert(c@.subrange(i as int, i as int + 4)[3] == c@[i as int + 3]);
                assert(c@.subrange(i as int, i as int + 4) != seq![60u8, 115u8, 118u8, 103u8]);
            }
            i += 1;
        }
        proof {
            assert(!contains_svg(c@)) by {
                if contains_svg(c@) {
                    let k = choose|k: int|
                        0 <= k && k + 4 <= c@.len() && #[trigger] c@.subrange(k, k + 4) == seq![
                            60u8,
                            115u8,
                            118u8,
                            103u8,
                        ];
                    assert(k < i);
                }
            }
        }
        BlobFormat::Utf8
    }
}

/// Whether the bytes are valid UTF-8.
///
/// Relies on `core::str::from_utf8`: validity is a function of the bytes
/// alone.
#[verifier::external_body]
pub fn utf8_ok(s: &Vec<u8>) -> (r: bool)
    ensures
        r == is_utf8(s@),
{
    core::str::from_utf8(s).is_ok()
}

/// Everything that can go wrong while installing the tag catalog or
/// parsing runs.
#[derive(Clone, Copy, Debug, PartialEq, Eq, Structural)]
pub enum CatalogError {
    /// A tag's pattern is not UTF-8 or not a valid regex.
    InvalidPattern,
    /// Two configured tags share a name.
    DuplicateName,
    /// An existing tag with findings would change its target field.
    FieldConflict,
    /// The composite matcher could not be built.
    SetBuild,
    /// The row id counter is exhausted.
    IdsExhausted,
}

/// Every catalog pattern's tag is stored: its id resolves in the tag
/// table and the stored row carries the same name, description, field and
/// severity.
pub open spec fn catalog_coherent(pats: Seq<Tag>, dbtags: Seq<InDatabase<TagInfo>>) -> bool {
    forall|k: int|
        0 <= k < pats.len() ==> {
            let it = (#[trigger] pats[k]).spec_item();
            has_id(dbtags, it.id) && tag_like(row_by_id(dbtags, it.id).item, it.item)
        }
}

/// The stored form of one configured tag.
pub open spec fn cfg_info(c: ConfigTag) -> TagInfo {
    TagInfo { name: c.name, desc: c.desc, field: c.from, severity: c.severity }
}

/// The configured tag names are pairwise distinct.
pub open spec fn cfg_names_distinct(cfgs: Seq<ConfigTag>) -> bool {
    forall|a: int, b: int|
        0 <= a < b < cfgs.len() ==> #[trigger] cfgs[a].name@ != #[trigger] cfgs[b].name@
}

/// Every configured pattern compiles.
pub open spec fn cfg_patterns_ok(cfgs: Seq<ConfigTag>) -> bool {
    forall|k: int| 0 <= k < cfgs.len() ==> regex_ok((#[trigger] cfgs[k]).pattern@)
}

/// The configured pattern sources, in declaration order.
pub open spec fn cfg_sources(cfgs: Seq<ConfigTag>) -> Seq<Seq<u8>> {
    Seq::new(cfgs.len(), |k: int| cfgs[k].pattern@)
}

/// The configured tag would change the target field of a stored tag that
/// findings still reference; such an upsert would orphan snippet ranges.
pub open spec fn cfg_conflicts(
    tags: Seq<InDatabase<TagInfo>>,
    issues: Seq<InDatabase<IssueInfo>>,
    c: ConfigTag,
) -> bool {
    exists|i: int|
        0 <= i < tags.len() && (#[trigger] tags[i]).item.name@ == c.name@ && tags[i].item.field
            != c.from && !tag_unreferenced(issues, tags[i].id)
}

/// Some configured tag conflicts with the stored table.
pub open spec fn cfg_any_conflict(
    tags: Seq<InDatabase<TagInfo>>,
    issues: Seq<InDatabase<IssueInfo>>,
    cfgs: Seq<ConfigTag>,
) -> bool {
    exists|k: int| 0 <= k < cfgs.len() && cfg_conflicts(tags, issues, #[trigger] cfgs[k])
}

/// Every row of `now` is either an unchanged row of `old_rows` or
/// carries one of the first `i` configured names: the upsert pass only
/// touches rows keyed by the names it has processed.
pub open spec fn rows_from(
    old_rows: Seq<InDatabase<TagInfo>>,
    now: Seq<InDatabase<TagInfo>>,
    cfgs: Seq<ConfigTag>,
    i: int,
) -> bool {
    forall|w: int|
        0 <= w < now.len() ==> (exists|v: int|
            0 <= v < old_rows.len() && old_rows[v] == #[trigger] now[w]) || (exists|a: int|
            0 <= a < i && now[w].item.name@ == cfgs[a].name@)
}

/// The tag table and id counter after upserting the configured tags in
/// order, from position `k` on.
pub open spec fn spec_upsert_tag_list(
    tags: Seq<InDatabase<TagInfo>>,
    next: i64,
    cfgs: Seq<ConfigTag>,
    k: int,
) -> (Seq<InDatabase<TagInfo>>, i64)
    decreases cfgs.len() - k,
{
    if k < 0 || k >= cfgs.len() {
        (tags, next)
    } else {
        let step = crate::db::spec_upsert_tag(tags, next, cfg_info(cfgs[k]));
        spec_upsert_tag_list(step.0, step.1, cfgs, k + 1)
    }
}

/// Upsert the configured tags into the cache and compile them into the
/// catalog. The error cases are exhaustive and exclusive, in this order:
/// a duplicated configured name, an id counter that cannot cover the
/// configured tags, a pattern that does not compile, a field change on a
/// tag that findings still reference, and a composite matcher that does
/// not build; otherwise success is owed, the tag table becomes the
/// in-order upsert of every configured tag, and the catalog holds one
/// pattern per configured tag, compiled from its source and carrying its
/// stored row.
#[verifier::rlimit(60)]
#[verifier::spinoff_prover]
pub fn upsert_tags(db: &mut Database, tags: &Vec<ConfigTag>) -> (r: Result<TagSet, CatalogError>)
    requires
        old(db).wf(),
    ensures
        final(db).wf(),
        final(db).jobs == old(db).jobs,
        final(db).builds == old(db).builds,
        final(db).runs == old(db).runs,
        final(db).artifacts == old(db).artifacts,
        final(db).issues == old(db).issues,
        final(db).similarities == old(db).similarities,
        r == Err::<TagSet, CatalogError>(CatalogError::DuplicateName) <==> !cfg_names_distinct(
            tags@,
        ),
        r == Err::<TagSet, CatalogError>(CatalogError::IdsExhausted) <==> cfg_names_distinct(tags@)
            && old(db).next_id + tags@.len() > i64::MAX,
        r == Err::<TagSet, CatalogError>(CatalogError::InvalidPattern) <==> cfg_names_distinct(
            tags@,
        ) && old(db).next_id + tags@.len() <= i64::MAX && !cfg_patterns_ok(tags@),
        r == Err::<TagSet, CatalogError>(CatalogError::FieldConflict) <==> cfg_names_distinct(tags@)
            && old(db).next_id + tags@.len() <= i64::MAX && cfg_patterns_ok(tags@)
            && cfg_any_conflict(old(db).tags@, old(db).issues@, tags@),
        r == Err::<TagSet, CatalogError>(CatalogError::SetBuild) <==> cfg_names_distinct(tags@)
            && old(db).next_id + tags@.len() <= i64::MAX && cfg_patterns_ok(tags@)
            && !cfg_any_conflict(old(db).tags@, old(db).issues@, tags@) && !regex_set_ok(
            cfg_sources(tags@),
        ),
        r is Ok <==> cfg_names_distinct(tags@) && old(db).next_id + tags@.len() <= i64::MAX
            && cfg_patterns_ok(tags@) && !cfg_any_conflict(old(db).tags@, old(db).issues@, tags@)
            && regex_set_ok(cfg_sources(tags@)),
        r is Ok || r == Err::<TagSet, CatalogError>(CatalogError::SetBuild) ==> tag_rows_like(
            final(db).tags@,
            spec_upsert_tag_list(old(db).tags@, old(db).next_id, tags@, 0).0,
        ) && final(db).next_id == spec_upsert_tag_list(old(db).tags@, old(db).next_id, tags@, 0).1,
        !(r is Ok || r == Err::<TagSet, CatalogError>(CatalogError::SetBuild)) ==> final(db).tags
            == old(db).tags && final(db).next_id == old(db).next_id,
        match r {
            Ok(ts) => {
                &&& ts.spec_patterns().len() == tags@.len()
                &&& catalog_coherent(ts.spec_patterns(), final(db).tags@)
                &&& forall|k: int|
                    0 <= k < tags@.len() ==> (#[trigger] ts.spec_patterns()[k]).spec_source()
                        == tags@[k].pattern@ && ts.spec_patterns()[k].spec_item().item.name@
                        == tags@[k].name@
            },
            Err(_) => true,
        },
{
    // Reject duplicated names up front: the catalog keys tags by name.
    let mut i: usize = 0;
    while i < tags.len()
        invariant
            *db == *old(db),
            old(db).wf(),
            i <= tags@.len(),
            forall|a: int, b: int|
                0 <= a < b < i ==> #[trigger] tags@[a].name@ != #[trigger] tags@[b].name@,
        decreases tags@.len() - i,
    {
        let mut j: usize = 0;
        while j < i
            invariant
                *db == *old(db),
                old(db).wf(),
                j <= i < tags@.len(),
                forall|a: int, b: int|
                    0 <= a < b < i ==> #[trigger] tags@[a].name@ != #[trigger] tags@[b].name@,
                forall|a: int| 0 <= a < j ==> #[trigger] tags@[a].name@ != tags@[i as int].name@,
            decreases i - j,
        {
            if bytes_eq(tags[j].name.as_slice(), tags[i].name.as_slice()) {
                return Err(CatalogError::DuplicateName);
            }
            j += 1;
        }
        i += 1;
    }

    proof {
        assert(cfg_names_distinct(tags@));
    }

    // The counter must be able to cover one fresh id per configured tag.
    if (tags.len() as u64) > ((i64::MAX - db.next_id) as u64) {
        return Err(CatalogError::IdsExhausted);
    }

    // Every configured pattern must compile.
    let mut i: usize = 0;
    while i < tags.len()
        invariant
            *db == *old(db),
            old(db).wf(),
            i <= tags@.len(),
            cfg_names_distinct(tags@),
            old(db).next_id + tags@.len() <= i64::MAX,
            forall|k: int| 0 <= k < i ==> regex_ok((#[trigger] tags@[k]).pattern@),
        decreases tags@.len() - i,
    {
        if !regex_check(&tags[i].pattern) {
            return Err(CatalogError::InvalidPattern);
        }
        i += 1;
    }

    // A field change is only allowed on a tag without findings.
    let mut i: usize = 0;
    while i < tags.len()
        invariant
            *db == *old(db),
            old(db).wf(),
            i <= tags@.len(),
            cfg_names_distinct(tags@),
            old(db).next_id + tags@.len() <= i64::MAX,
            cfg_patterns_ok(tags@),
            forall|k: int|
                0 <= k < i ==> !cfg_conflicts(db.tags@, db.issues@, #[trigger] tags@[k]),
        decreases tags@.len() - i,
    {
        let mut w: usize = 0;
        while w < db.tags.len()
            invariant
                *db == *old(db),
                old(db).wf(),
                i < tags@.len(),
                cfg_names_distinct(tags@),
                old(db).next_id + tags@.len() <= i64::MAX,
                cfg_patterns_ok(tags@),
                w <= db.tags@.len(),
                forall|k: int|
                    0 <= k < w ==> !((#[trigger] db.tags@[k]).item.name@ == tags@[i as int].name@
                        && db.tags@[k].item.field != tags@[i as int].from && !tag_unreferenced(
                        db.issues@,
                        db.tags@[k].id,
                    )),
            decreases db.tags@.len() - w,
        {
            if bytes_eq(db.tags[w].item.name.as_slice(), tags[i].name.as_slice()) && !(db.tags[w].item.field
                == tags[i].from) {
                let mut y: usize = 0;
                let mut referenced: bool = false;
                while y < db.issues.len()
                    invariant
                        *db == *old(db),
                        old(db).wf(),
                        i < tags@.len(),
                        cfg_names_distinct(tags@),
                        old(db).next_id + tags@.len() <= i64::MAX,
                        cfg_patterns_ok(tags@),
                        w < db.tags@.len(),
                        y <= db.issues@.len(),
                        referenced ==> !tag_unreferenced(db.issues@, db.tags@[w as int].id),
                        !referenced ==> forall|k: int|
                            0 <= k < y ==> #[trigger] db.issues@[k].item.tag_id
                                != db.tags@[w as int].id,
                    decreases db.issues@.len() - y,
                {
                    if db.issues[y].item.tag_id == db.tags[w].id {
                        referenced = true;
                    }
                    y += 1;
                }
                if referenced {
                    proof {
                        assert(cfg_conflicts(db.tags@, db.issues@, tags@[i as int]));
                    }
                    return Err(CatalogError::FieldConflict);
                }
            }
            w += 1;
        }
        i += 1;
    }
    proof {
        assert(!cfg_any_conflict(old(db).tags@, old(db).issues@, tags@));
    }

    // Upsert pass: the table becomes the in-order upsert of every
    // configured tag, tracked against the spec-level fold.
    let ghost full_fold = spec_upsert_tag_list(old(db).tags@, old(db).next_id, tags@, 0);
    let ghost mut fold_tags = old(db).tags@;
    let mut i: usize = 0;
    while i < tags.len()
        invariant
            db.wf(),
            old(db).wf(),
            i <= tags@.len(),
            db.jobs == old(db).jobs,
            db.builds == old(db).builds,
            db.runs == old(db).runs,
            db.artifacts == old(db).artifacts,
            db.issues == old(db).issues,
            db.similarities == old(db).similarities,
            old(db).next_id + tags@.len() <= i64::MAX,
            db.next_id - old(db).next_id <= i,
            old(db).next_id <= db.next_id,
            full_fold == spec_upsert_tag_list(old(db).tags@, old(db).next_id, tags@, 0),
            full_fold == spec_upsert_tag_list(fold_tags, db.next_id, tags@, i as int),
            tag_rows_like(db.tags@, fold_tags),
            rows_from(old(db).tags@, db.tags@, tags@, i as int),
            cfg_names_distinct(tags@),
            cfg_patterns_ok(tags@),
            !cfg_any_conflict(old(db).tags@, old(db).issues@, tags@),
            forall|a: int| 0 <= a < i ==> has_tag_named(db.tags@, #[trigger] tags@[a].name@),
        decreases tags@.len() - i,
    {
        let ghost pre_tags = db.tags@;
        let ghost pre_fold = fold_tags;
        let ghost pre_next = db.next_id;
        let info = TagInfo {
            name: clone_bytes(&tags[i].name),
            desc: clone_bytes(&tags[i].desc),
            field: tags[i].from,
            severity: tags[i].severity,
        };
        proof {
            assert(tag_update_safe(db.tags@, db.issues@, info)) by {
                assert forall|w: int|
                    0 <= w < db.tags@.len() && #[trigger] db.tags@[w].item.name@ == info.name@
                        implies (db.tags@[w].item.field == info.field || tag_unreferenced(
                    db.issues@,
                    db.tags@[w].id,
                )) by {
                    if db.tags@[w].item.field != info.field && !tag_unreferenced(
                        db.issues@,
                        db.tags@[w].id,
                    ) {
                        // The offending row is either an original row (then
                        // the conflict scan would have caught it) or keyed
                        // by an earlier, distinct configured name.
                        if exists|v: int|
                            0 <= v < old(db).tags@.len() && old(db).tags@[v] == db.tags@[w] {
                            let v = choose|v: int|
                                0 <= v < old(db).tags@.len() && old(db).tags@[v] == db.tags@[w];
                            assert(old(db).tags@[v].item.name@ == tags@[i as int].name@);
                            assert(cfg_conflicts(old(db).tags@, old(db).issues@, tags@[i as int]));
                        } else {
                            let a = choose|a: int|
                                0 <= a < i && db.tags@[w].item.name@ == tags@[a].name@;
                            assert(tags@[a].name@ != tags@[i as int].name@);
                        }
                        assert(false);
                    }
                }
            }
        }
        let _tid = db.upsert_tag(info);
        proof {
            fold_tags = crate::db::spec_upsert_tag(pre_fold, pre_next, cfg_info(tags@[i as int])).0;
            crate::db::lemma_spec_upsert_tag_like(
                pre_tags,
                pre_fold,
                pre_next,
                info,
                cfg_info(tags@[i as int]),
            );
            assert(db.tags@ == crate::db::spec_upsert_tag(pre_tags, pre_next, info).0);
            assert(tag_rows_like(db.tags@, fold_tags));
            assert(has_tag_named(db.tags@, tags@[i as int].name@)) by {
                let step = crate::db::spec_upsert_tag(pre_tags, pre_next, info);
                if has_tag_named(pre_tags, info.name@) {
                    let j = choose|j: int|
                        0 <= j < pre_tags.len() && #[trigger] pre_tags[j].item.name@ == info.name@;
                    assert(step.0[j].item.name@ == info.name@);
                } else {
                    assert(step.0[step.0.len() - 1].item.name@ == info.name@);
                }
            }
            assert forall|a: int| 0 <= a < i + 1 implies has_tag_named(
                db.tags@,
                #[trigger] tags@[a].name@,
            ) by {
                if a < i {
                    assert(has_tag_named(pre_tags, tags@[a].name@));
                    let v = choose|v: int|
                        0 <= v < pre_tags.len() && #[trigger] pre_tags[v].item.name@
                            == tags@[a].name@;
                    let step = crate::db::spec_upsert_tag(pre_tags, pre_next, info);
                    if has_tag_named(pre_tags, info.name@) {
                        let j2 = choose|j2: int|
                            0 <= j2 < pre_tags.len() && #[trigger] pre_tags[j2].item.name@
                                == info.name@;
                        assert(step.0[v].item.name@ == tags@[a].name@);
                    } else {
                        assert(step.0[v].item.name@ == tags@[a].name@);
                    }
                }
            }
            assert(rows_from(old(db).tags@, db.tags@, tags@, i as int + 1)) by {
                let step = crate::db::spec_upsert_tag(pre_tags, pre_next, info);
                assert forall|w: int|
                    0 <= w < db.tags@.len() implies (exists|v: int|
                    0 <= v < old(db).tags@.len() && old(db).tags@[v] == #[trigger] db.tags@[w]) || (
                exists|a: int|
                    0 <= a < i + 1 && db.tags@[w].item.name@ == tags@[a].name@) by {
                    if has_tag_named(pre_tags, info.name@) {
                        let j = choose|j: int|
                            0 <= j < pre_tags.len() && #[trigger] pre_tags[j].item.name@
                                == info.name@;
                        if w == j {
                            assert(db.tags@[w].item.name@ == tags@[i as int].name@);
                        } else {
                            assert(db.tags@[w] == pre_tags[w]);
                            assert(rows_from(old(db).tags@, pre_tags, tags@, i as int));
                        }
                    } else {
                        if w < pre_tags.len() {
                            assert(db.tags@[w] == pre_tags[w]);
                            assert(rows_from(old(db).tags@, pre_tags, tags@, i as int));
                        } else {
                            assert(db.tags@[w].item.name@ == tags@[i as int].name@);
                        }
                    }
                }
            }
        }
        i += 1;
    }
    proof {
        assert(tag_rows_like(db.tags@, full_fold.0));
        assert(db.next_id == full_fold.1);
    }

    // Compile one pattern per configured tag from its stored row; every
    // pattern source was already checked.
    let mut patterns: Vec<Tag> = Vec::new();
    let mut i: usize = 0;
    while i < tags.len()
        invariant
            db.wf(),
            i <= tags@.len(),
            db.jobs == old(db).jobs,
            db.builds == old(db).builds,
            db.runs == old(db).runs,
            db.artifacts == old(db).artifacts,
            db.issues == old(db).issues,
            db.similarities == old(db).similarities,
            tag_rows_like(db.tags@, full_fold.0),
            db.next_id == full_fold.1,
            cfg_names_distinct(tags@),
            old(db).next_id + tags@.len() <= i64::MAX,
            cfg_patterns_ok(tags@),
            !cfg_any_conflict(old(db).tags@, old(db).issues@, tags@),
            forall|a: int| 0 <= a < tags@.len() ==> has_tag_named(db.tags@, #[trigger] tags@[a].name@),
            patterns@.len() == i,
            catalog_coherent(patterns@, db.tags@),
            forall|k: int|
                0 <= k < i ==> (#[trigger] patterns@[k]).spec_source() == tags@[k].pattern@
                    && patterns@[k].spec_item().item.name@ == tags@[k].name@,
        decreases tags@.len() - i,
    {
        let mut w: usize = 0;
        let mut found: Option<usize> = None;
        while w < db.tags.len()
            invariant
                w <= db.tags@.len(),
                i < tags@.len(),
                match found {
                    Some(f) => f < db.tags@.len() && db.tags@[f as int].item.name@
                        == tags@[i as int].name@,
                    None => forall|k: int|
                        0 <= k < w ==> #[trigger] db.tags@[k].item.name@ != tags@[i as int].name@,
                },
            decreases db.tags@.len() - w,
        {
            if found.is_none() && bytes_eq(db.tags[w].item.name.as_slice(), tags[i].name.as_slice())
            {
                found = Some(w);
            }
            w += 1;
        }
        match found {
            Some(f) => {
                let row_id = db.tags[f].id;
                let info = TagInfo {
                    name: clone_bytes(&db.tags[f].item.name),
                    desc: clone_bytes(&db.tags[f].item.desc),
                    field: db.tags[f].item.field,
                    severity: db.tags[f].item.severity,
                };
                match Pattern::new(InDatabase::new(row_id, info), clone_bytes(&tags[i].pattern)) {
                    Some(p) => {
                        proof {
                            let dbt = db.tags@;
                            assert(has_id(dbt, row_id));
                            let v = choose|v: int|
                                0 <= v < dbt.len() && #[trigger] dbt[v].id == row_id;
                            assert(v == f as int) by {
                                if v != f as int {
                                    assert(dbt[v].id != dbt[f as int].id);
                                }
                            }
                            assert(row_by_id(dbt, row_id) == dbt[f as int]);
                        }
                        patterns.push(p);
                    },
                    None => {
                        proof {
                            assert(regex_ok(tags@[i as int].pattern@));
                            assert(false);
                        }
                        return Err(CatalogError::InvalidPattern);
                    },
                }
            },
            None => {
                proof {
                    assert(has_tag_named(db.tags@, tags@[i as int].name@));
                    assert(false);
                }
                return Err(CatalogError::InvalidPattern);
            },
        }
        i += 1;
    }
    proof {
        assert(Seq::new(patterns@.len(), |k: int| patterns@[k].spec_source()) =~= cfg_sources(
            tags@,
        ));
    }
    match PatternSet::new(patterns) {
        Some(ts) => Ok(ts),
        None => Err(CatalogError::SetBuild),
    }
}

/// The text a finding points into: the field selected by `field`,
/// resolved against the run or artifact tables.
pub open spec fn issue_text(
    runs: Seq<InDatabase<Run>>,
    artifacts: Seq<InDatabase<Artifact>>,
    field: Field,
    iss: IssueInfo,
) -> Seq<u8> {
    match field {
        Field::RunName => row_by_id(runs, iss.run_id).item.display_name@,
        Field::Console => row_by_id(runs, iss.run_id).item.log->0@,
        Field::Artifact => row_by_id(artifacts, iss.artifact_id->0).item.contents@,
    }
}

/// The finding form of a stored issue row.
pub open spec fn finding_of(iss: IssueInfo) -> Finding {
    Finding {
        start: iss.snippet_start,
        end: iss.snippet_end,
        tag_id: iss.tag_id,
        duplicates: iss.duplicates,
    }
}

/// The issue was produced by the catalog: some pattern carries its tag,
/// and greping that pattern over the field the tag selects yields exactly
/// this finding.
pub open spec fn issue_grepped(
    runs: Seq<InDatabase<Run>>,
    artifacts: Seq<InDatabase<Artifact>>,
    pats: Seq<Tag>,
    iss: IssueInfo,
) -> bool {
    exists|k: int|
        0 <= k < pats.len() && (#[trigger] pats[k]).spec_item().id == iss.tag_id
            && spec_grep_findings(
            issue_text(runs, artifacts, pats[k].spec_item().item.field, iss),
            pats[k].spec_source(),
            iss.tag_id,
        ).contains(finding_of(iss))
}

/// The stored form of one finding of a pattern over a field.
pub open spec fn finding_issue(f: Finding, run_id: i64, artifact_id: Option<i64>) -> IssueInfo {
    IssueInfo {
        snippet_start: f.start,
        snippet_end: f.end,
        run_id,
        artifact_id,
        tag_id: f.tag_id,
        duplicates: f.duplicates,
    }
}

/// Whether the finding value appears among the rows from `lo` on.
pub open spec fn issues_contain(issues: Seq<InDatabase<IssueInfo>>, lo: int, iss: IssueInfo) -> bool {
    exists|i: int| lo <= i < issues.len() && (#[trigger] issues[i]).item == iss
}

/// Every finding of `pat` over `text` is stored from row `lo` on, under
/// the given run and artifact.
pub open spec fn findings_stored(
    issues: Seq<InDatabase<IssueInfo>>,
    lo: int,
    text: Seq<u8>,
    pat: Tag,
    run_id: i64,
    artifact_id: Option<i64>,
) -> bool {
    forall|f: int|
        0 <= f < spec_grep_findings(text, pat.spec_source(), pat.spec_item().id).len()
            ==> issues_contain(
            issues,
            lo,
            finding_issue(
                #[trigger] spec_grep_findings(text, pat.spec_source(), pat.spec_item().id)[f],
                run_id,
                artifact_id,
            ),
        )
}

/// Stored findings stay stored when rows are only appended.
pub proof fn lemma_findings_stored_mono(
    issues1: Seq<InDatabase<IssueInfo>>,
    issues2: Seq<InDatabase<IssueInfo>>,
    lo: int,
    lo2: int,
    text: Seq<u8>,
    pat: Tag,
    run_id: i64,
    artifact_id: Option<i64>,
)
    requires
        findings_stored(issues1, lo, text, pat, run_id, artifact_id),
        issues1.len() <= issues2.len(),
        forall|i: int| 0 <= i < issues1.len() ==> #[trigger] issues2[i] == issues1[i],
        0 <= lo2 <= lo,
    ensures
        findings_stored(issues2, lo2, text, pat, run_id, artifact_id),
{
    let fs = spec_grep_findings(text, pat.spec_source(), pat.spec_item().id);
    assert forall|f: int| 0 <= f < fs.len() implies issues_contain(
        issues2,
        lo2,
        finding_issue(#[trigger] fs[f], run_id, artifact_id),
    ) by {
        assert(issues_contain(issues1, lo, finding_issue(fs[f], run_id, artifact_id)));
        let i = choose|i: int|
            lo <= i < issues1.len() && (#[trigger] issues1[i]).item == finding_issue(
                fs[f],
                run_id,
                artifact_id,
            );
        assert(issues2[i].item == finding_issue(fs[f], run_id, artifact_id));
    }
}

/// A pattern that does not match the text greps no findings at all.
pub proof fn lemma_no_match_no_findings(text: Seq<u8>, src: Seq<u8>, tag_id: i64)
    requires
        !regex_matches(src, text),
    ensures
        spec_grep_findings(text, src, tag_id).len() == 0,
{
    assert(regex_spans(src, text).len() == 0);
    assert(spec_grep_findings(text, src, tag_id) =~= Seq::empty());
}

/// Everything the parse phase owes one unparsed run: every finding of
/// every catalog pattern over the field the pattern selects, stored from
/// row `lo` on — the display name, the console log if present, and each
/// UTF-8 artifact of the run.
pub open spec fn run_fields_stored(
    issues: Seq<InDatabase<IssueInfo>>,
    lo: int,
    runs: Seq<InDatabase<Run>>,
    artifacts: Seq<InDatabase<Artifact>>,
    pats: Seq<Tag>,
    w: int,
) -> bool {
    &&& forall|k: int|
        0 <= k < pats.len() && (#[trigger] pats[k]).spec_item().item.field is RunName
            ==> findings_stored(issues, lo, runs[w].item.display_name@, pats[k], runs[w].id, None)
    &&& runs[w].item.log is Some ==> forall|k: int|
        0 <= k < pats.len() && (#[trigger] pats[k]).spec_item().item.field is Console
            ==> findings_stored(issues, lo, runs[w].item.log->0@, pats[k], runs[w].id, None)
    &&& forall|ai: int, k: int|
        0 <= ai < artifacts.len() && (#[trigger] artifacts[ai]).item.run_id == runs[w].id && is_utf8(
            artifacts[ai].item.contents@,
        ) && 0 <= k < pats.len() && (#[trigger] pats[k]).spec_item().item.field is Artifact
            ==> findings_stored(
            issues,
            lo,
            artifacts[ai].item.contents@,
            pats[k],
            runs[w].id,
            Some(artifacts[ai].id),
        )
}

/// A run's stored findings stay stored when rows are only appended.
pub proof fn lemma_run_fields_stored_mono(
    issues1: Seq<InDatabase<IssueInfo>>,
    issues2: Seq<InDatabase<IssueInfo>>,
    lo: int,
    runs: Seq<InDatabase<Run>>,
    artifacts: Seq<InDatabase<Artifact>>,
    pats: Seq<Tag>,
    w: int,
)
    requires
        run_fields_stored(issues1, lo, runs, artifacts, pats, w),
        issues1.len() <= issues2.len(),
        forall|i: int| 0 <= i < issues1.len() ==> #[trigger] issues2[i] == issues1[i],
        0 <= lo,
        0 <= w < runs.len(),
    ensures
        run_fields_stored(issues2, lo, runs, artifacts, pats, w),
{
    assert forall|k: int|
        0 <= k < pats.len() && (#[trigger] pats[k]).spec_item().item.field is RunName
            implies findings_stored(
        issues2,
        lo,
        runs[w].item.display_name@,
        pats[k],
        runs[w].id,
        None,
    ) by {
        lemma_findings_stored_mono(
            issues1,
            issues2,
            lo,
            lo,
            runs[w].item.display_name@,
            pats[k],
            runs[w].id,
            None,
        );
    }
    if runs[w].item.log is Some {
        assert forall|k: int|
            0 <= k < pats.len() && (#[trigger] pats[k]).spec_item().item.field is Console
                implies findings_stored(
            issues2,
            lo,
            runs[w].item.log->0@,
            pats[k],
            runs[w].id,
            None,
        ) by {
            lemma_findings_stored_mono(
                issues1,
                issues2,
                lo,
                lo,
                runs[w].item.log->0@,
                pats[k],
                runs[w].id,
                None,
            );
        }
    }
    assert forall|ai: int, k: int|
        0 <= ai < artifacts.len() && (#[trigger] artifacts[ai]).item.run_id == runs[w].id && is_utf8(
            artifacts[ai].item.contents@,
        ) && 0 <= k < pats.len() && (#[trigger] pats[k]).spec_item().item.field is Artifact
            implies findings_stored(
        issues2,
        lo,
        artifacts[ai].item.contents@,
        pats[k],
        runs[w].id,
        Some(artifacts[ai].id),
    ) by {
        lemma_findings_stored_mono(
            issues1,
            issues2,
            lo,
            lo,
            artifacts[ai].item.contents@,
            pats[k],
            runs[w].id,
            Some(artifacts[ai].id),
        );
    }
}

/// A freshly inserted row of the parse phase: it belongs to the given
/// run and was grepped from the catalog.
pub open spec fn parsed_row(
    runs: Seq<InDatabase<Run>>,
    artifacts: Seq<InDatabase<Artifact>>,
    pats: Seq<Tag>,
    row: InDatabase<IssueInfo>,
    run_id: i64,
) -> bool {
    row.item.run_id == run_id && issue_grepped(runs, artifacts, pats, row.item)
}


/// Grep one field of one run with every matching catalog pattern of the
/// right kind and insert the findings. `text` must be the exact content
/// of the field that `field` selects for the run (and artifact).
#[verifier::rlimit(60)]
#[verifier::spinoff_prover]
fn process_field(
    db: &mut Database,
    tags: &TagSet,
    run_id: i64,
    field: Field,
    text: &Vec<u8>,
    artifact_id: Option<i64>,
) -> (r: Result<(), CatalogError>)
    requires
        old(db).wf(),
        catalog_coherent(tags.spec_patterns(), old(db).tags@),
        has_id(old(db).runs@, run_id),
        field is RunName ==> artifact_id is None && row_by_id(
            old(db).runs@,
            run_id,
        ).item.display_name@ == text@,
        field is Console ==> artifact_id is None && row_by_id(old(db).runs@, run_id).item.log
            is Some && row_by_id(old(db).runs@, run_id).item.log->0@ == text@,
        field is Artifact ==> artifact_id is Some && has_id(old(db).artifacts@, artifact_id->0)
            && row_by_id(old(db).artifacts@, artifact_id->0).item.run_id == run_id && row_by_id(
            old(db).artifacts@,
            artifact_id->0,
        ).item.contents@ == text@,
    ensures
        final(db).wf(),
        final(db).jobs == old(db).jobs,
        final(db).builds == old(db).builds,
        final(db).runs == old(db).runs,
        final(db).artifacts == old(db).artifacts,
        final(db).tags == old(db).tags,
        final(db).similarities == old(db).similarities,
        old(db).issues@.len() <= final(db).issues@.len(),
        forall|i: int|
            0 <= i < old(db).issues@.len() ==> #[trigger] final(db).issues@[i] == old(
                db,
            ).issues@[i],
        forall|i: int|
            old(db).issues@.len() <= i < final(db).issues@.len() ==> #[trigger] parsed_row(
                old(db).runs@,
                old(db).artifacts@,
                tags.spec_patterns(),
                final(db).issues@[i],
                run_id,
            ),
        final(db).next_id - old(db).next_id == final(db).issues@.len() - old(db).issues@.len(),
        r is Ok ==> forall|k: int|
            0 <= k < tags.spec_patterns().len()
                && (#[trigger] tags.spec_patterns()[k]).spec_item().item.field == field
                ==> findings_stored(
                final(db).issues@,
                old(db).issues@.len() as int,
                text@,
                tags.spec_patterns()[k],
                run_id,
                artifact_id,
            ),
        r is Err ==> final(db).next_id == i64::MAX,
{
    let ghost pats = tags.spec_patterns();
    let ghost old_len = old(db).issues@.len() as int;
    let ghost oruns = old(db).runs@;
    let ghost oarts = old(db).artifacts@;
    let matched = tags.grep_matches(text);
    let mut mi: usize = 0;
    while mi < matched.len()
        invariant
            db.wf(),
            mi <= matched@.len(),
            pats == tags.spec_patterns(),
            oruns == old(db).runs@,
            oarts == old(db).artifacts@,
            catalog_coherent(pats, old(db).tags@),
            has_id(oruns, run_id),
            field is RunName ==> artifact_id is None && row_by_id(oruns, run_id).item.display_name@
                == text@,
            field is Console ==> artifact_id is None && row_by_id(oruns, run_id).item.log is Some
                && row_by_id(oruns, run_id).item.log->0@ == text@,
            field is Artifact ==> artifact_id is Some && has_id(oarts, artifact_id->0) && row_by_id(
                oarts,
                artifact_id->0,
            ).item.run_id == run_id && row_by_id(oarts, artifact_id->0).item.contents@ == text@,
            forall|i: int| 0 <= i < matched@.len() ==> #[trigger] matched@[i] < pats.len(),
            db.jobs == old(db).jobs,
            db.builds == old(db).builds,
            db.runs == old(db).runs,
            db.artifacts == old(db).artifacts,
            db.tags == old(db).tags,
            db.similarities == old(db).similarities,
            old(db).issues@.len() <= db.issues@.len(),
            old_len == old(db).issues@.len(),
            db.next_id - old(db).next_id == db.issues@.len() - old(db).issues@.len(),
            forall|i: int|
                0 <= i < old(db).issues@.len() ==> #[trigger] db.issues@[i] == old(db).issues@[i],
            forall|i: int|
                old(db).issues@.len() <= i < db.issues@.len() ==> #[trigger] parsed_row(
                    oruns,
                    oarts,
                    pats,
                    db.issues@[i],
                    run_id,
                ),
            forall|m: int|
                0 <= m < mi && pats[#[trigger] matched@[m] as int].spec_item().item.field == field
                    ==> findings_stored(
                    db.issues@,
                    old_len,
                    text@,
                    pats[matched@[m] as int],
                    run_id,
                    artifact_id,
                ),
        decreases matched@.len() - mi,
    {
        let ghost pre_outer_issues = db.issues@;
        let pk = matched[mi];
        let pattern = tags.pattern_at(pk);
        let pat_field = pattern.item().item.field;
        let right_field = match (pat_field, field) {
            (Field::RunName, Field::RunName) => true,
            (Field::Console, Field::Console) => true,
            (Field::Artifact, Field::Artifact) => true,
            _ => false,
        };
        if right_field {
            let findings = pattern.grep_issue(text);
            let tag_id = pattern.item().id;
            let mut fi: usize = 0;
            while fi < findings.len()
                invariant
                    db.wf(),
                    fi <= findings@.len(),
                    pk < pats.len(),
                    pats == tags.spec_patterns(),
                    oruns == old(db).runs@,
                    oarts == old(db).artifacts@,
                    catalog_coherent(pats, old(db).tags@),
                    has_id(oruns, run_id),
                    field is RunName ==> artifact_id is None && row_by_id(
                        oruns,
                        run_id,
                    ).item.display_name@ == text@,
                    field is Console ==> artifact_id is None && row_by_id(oruns, run_id).item.log
                        is Some && row_by_id(oruns, run_id).item.log->0@ == text@,
                    field is Artifact ==> artifact_id is Some && has_id(oarts, artifact_id->0)
                        && row_by_id(oarts, artifact_id->0).item.run_id == run_id && row_by_id(
                        oarts,
                        artifact_id->0,
                    ).item.contents@ == text@,
                    tag_id == pats[pk as int].spec_item().id,
                    pat_field == pats[pk as int].spec_item().item.field,
                    pat_field == field,
                    findings@ == spec_grep_findings(text@, pats[pk as int].spec_source(), tag_id),
                    forall|i: int|
                        0 <= i < findings@.len() ==> (#[trigger] findings@[i]).start
                            <= findings@[i].end <= text@.len() && findings@[i].tag_id == tag_id,
                    db.jobs == old(db).jobs,
                    db.builds == old(db).builds,
                    db.runs == old(db).runs,
                    db.artifacts == old(db).artifacts,
                    db.tags == old(db).tags,
                    db.similarities == old(db).similarities,
                    old(db).issues@.len() <= db.issues@.len(),
                    old_len == old(db).issues@.len(),
                    db.next_id - old(db).next_id == db.issues@.len() - old(db).issues@.len(),
                    forall|i: int|
                        0 <= i < old(db).issues@.len() ==> #[trigger] db.issues@[i] == old(
                            db,
                        ).issues@[i],
                    forall|i: int|
                        old(db).issues@.len() <= i < db.issues@.len() ==> #[trigger] parsed_row(
                            oruns,
                            oarts,
                            pats,
                            db.issues@[i],
                            run_id,
                        ),
                    forall|m: int|
                        0 <= m < mi && pats[#[trigger] matched@[m] as int].spec_item().item.field
                            == field ==> findings_stored(
                            db.issues@,
                            old_len,
                            text@,
                            pats[matched@[m] as int],
                            run_id,
                            artifact_id,
                        ),
                    forall|f: int|
                        0 <= f < fi ==> issues_contain(
                            db.issues@,
                            old_len,
                            finding_issue(#[trigger] findings@[f], run_id, artifact_id),
                        ),
                decreases findings@.len() - fi,
            {
                if db.next_id == i64::MAX {
                    return Err(CatalogError::IdsExhausted);
                }
                let f = findings[fi];
                let iss = IssueInfo {
                    snippet_start: f.start,
                    snippet_end: f.end,
                    run_id,
                    artifact_id,
                    tag_id: f.tag_id,
                    duplicates: f.duplicates,
                };
                proof {
                    let it = pats[pk as int].spec_item();
                    assert(has_id(db.tags@, it.id) && tag_like(
                        row_by_id(db.tags@, it.id).item,
                        it.item,
                    ));
                    assert(row_by_id(db.tags@, iss.tag_id).item.field == field);
                    assert(crate::db::issue_contained(db.runs@, db.tags@, db.artifacts@, iss));
                }
                let ghost pre_issues = db.issues@;
                let _row = db.insert_issue(iss);
                proof {
                    assert(db.issues@[db.issues@.len() - 1].item == iss);
                    assert forall|m: int|
                        0 <= m < mi && pats[#[trigger] matched@[m] as int].spec_item().item.field
                            == field implies findings_stored(
                        db.issues@,
                        old_len,
                        text@,
                        pats[matched@[m] as int],
                        run_id,
                        artifact_id,
                    ) by {
                        assert(findings_stored(
                            pre_issues,
                            old_len,
                            text@,
                            pats[matched@[m] as int],
                            run_id,
                            artifact_id,
                        ));
                        lemma_findings_stored_mono(
                            pre_issues,
                            db.issues@,
                            old_len,
                            old_len,
                            text@,
                            pats[matched@[m] as int],
                            run_id,
                            artifact_id,
                        );
                    }
                    assert forall|f: int|
                        0 <= f < fi + 1 implies issues_contain(
                        db.issues@,
                        old_len,
                        finding_issue(#[trigger] findings@[f], run_id, artifact_id),
                    ) by {
                        if f < fi {
                            assert(issues_contain(
                                pre_issues,
                                old_len,
                                finding_issue(findings@[f], run_id, artifact_id),
                            ));
                            let i2 = choose|i2: int|
                                old_len <= i2 < pre_issues.len() && (#[trigger] pre_issues[i2]).item
                                    == finding_issue(findings@[f], run_id, artifact_id);
                            assert(db.issues@[i2].item == finding_issue(
                                findings@[f],
                                run_id,
                                artifact_id,
                            ));
                        } else {
                            assert(finding_issue(findings@[f], run_id, artifact_id) == iss);
                            assert(db.issues@[db.issues@.len() - 1].item == iss);
                        }
                    }
                    assert forall|i: int|
                        old(db).issues@.len() <= i < db.issues@.len() implies #[trigger] parsed_row(
                        oruns,
                        oarts,
                        pats,
                        db.issues@[i],
                        run_id,
                    ) by {
                        if i < pre_issues.len() {
                            assert(db.issues@[i] == pre_issues[i]);
                            assert(parsed_row(oruns, oarts, pats, pre_issues[i], run_id));
                        } else {
                            assert(db.issues@[i].item == iss);
                            assert(issue_text(oruns, oarts, field, iss) == text@);
                            assert(finding_of(iss) == f);
                            assert(findings@[fi as int] == f);
                            assert(spec_grep_findings(
                                text@,
                                pats[pk as int].spec_source(),
                                iss.tag_id,
                            ).contains(finding_of(iss)));
                            assert(issue_grepped(oruns, oarts, pats, iss));
                        }
                    }
                }
                fi += 1;
            }
            proof {
                assert(findings_stored(db.issues@, old_len, text@, pats[pk as int], run_id, artifact_id));
            }
        } else {
            proof {
                assert forall|m: int|
                    0 <= m < mi + 1 && pats[#[trigger] matched@[m] as int].spec_item().item.field
                        == field implies findings_stored(
                    db.issues@,
                    old_len,
                    text@,
                    pats[matched@[m] as int],
                    run_id,
                    artifact_id,
                ) by {
                    assert(m < mi);
                }
            }
        }
        mi += 1;
    }
    let n_pats = tags.len();
    proof {
        assert(pats.len() == n_pats);
        assert forall|k: int|
            0 <= k < pats.len() && (#[trigger] pats[k]).spec_item().item.field == field
                implies findings_stored(
            db.issues@,
            old_len,
            text@,
            pats[k],
            run_id,
            artifact_id,
        ) by {
            if regex_matches(pats[k].spec_source(), text@) {
                assert(matched@.contains(k as usize));
                let m = choose|m: int| 0 <= m < matched@.len() && matched@[m] == k as usize;
                assert(matched@[m] as int == k) by {
                    assert(k as usize as int == k);
                }
                assert(pats[matched@[m] as int] == pats[k]);
                assert(pats[matched@[m] as int].spec_item().item.field == field);
                assert(findings_stored(
                    db.issues@,
                    old_len,
                    text@,
                    pats[matched@[m] as int],
                    run_id,
                    artifact_id,
                ));
            } else {
                lemma_no_match_no_findings(text@, pats[k].spec_source(), pats[k].spec_item().id);
            }
        }
    }
    Ok(())
}

/// A stale or freshly parsed run is unparsed: its fingerprint is absent.
pub open spec fn run_unparsed(runs: Seq<InDatabase<Run>>, id: i64) -> bool {
    has_id(runs, id) && row_by_id(runs, id).item.tag_schema is None
}

/// A row the parse phase may add: grepped from the catalog, in a run
/// that was unparsed when the phase began.
pub open spec fn fresh_issue_ok(
    runs: Seq<InDatabase<Run>>,
    artifacts: Seq<InDatabase<Artifact>>,
    pats: Seq<Tag>,
    row: InDatabase<IssueInfo>,
) -> bool {
    issue_grepped(runs, artifacts, pats, row.item) && run_unparsed(runs, row.item.run_id)
}

/// Parse every unparsed run: apply the catalog to its display name, its
/// console log if present, and each of its UTF-8 artifacts, insert the
/// findings, and finally stamp every run with the catalog fingerprint.
#[verifier::rlimit(60)]
#[verifier::spinoff_prover]
pub fn parse_unprocessed_runs(db: &mut Database, tags: &TagSet) -> (r: Result<(), CatalogError>)
    requires
        old(db).wf(),
        catalog_coherent(tags.spec_patterns(), old(db).tags@),
    ensures
        final(db).wf(),
        final(db).jobs == old(db).jobs,
        final(db).builds == old(db).builds,
        final(db).artifacts == old(db).artifacts,
        final(db).tags == old(db).tags,
        final(db).similarities == old(db).similarities,
        old(db).issues@.len() <= final(db).issues@.len(),
        forall|i: int|
            0 <= i < old(db).issues@.len() ==> #[trigger] final(db).issues@[i] == old(
                db,
            ).issues@[i],
        forall|i: int|
            old(db).issues@.len() <= i < final(db).issues@.len() ==> #[trigger] fresh_issue_ok(
                old(db).runs@,
                old(db).artifacts@,
                tags.spec_patterns(),
                final(db).issues@[i],
            ),
        r is Ok ==> final(db).runs@.len() == old(db).runs@.len() && forall|i: int|
            0 <= i < old(db).runs@.len() ==> #[trigger] final(db).runs@[i] == (InDatabase {
                id: old(db).runs@[i].id,
                item: Run {
                    tag_schema: Some(spec_schema(tags.spec_patterns())),
                    ..old(db).runs@[i].item
                },
            }),
        final(db).next_id - old(db).next_id == final(db).issues@.len() - old(db).issues@.len(),
        r is Ok ==> forall|w: int|
            0 <= w < old(db).runs@.len() && (#[trigger] old(db).runs@[w]).item.tag_schema is None
                ==> run_fields_stored(
                final(db).issues@,
                old(db).issues@.len() as int,
                old(db).runs@,
                old(db).artifacts@,
                tags.spec_patterns(),
                w,
            ),
        r is Err ==> final(db).next_id == i64::MAX,
{
    let ghost pats = tags.spec_patterns();
    let ghost oruns = old(db).runs@;
    let ghost oarts = old(db).artifacts@;
    let ghost old_len = old(db).issues@.len() as int;
    let mut ri: usize = 0;
    while ri < db.runs.len()
        invariant
            db.wf(),
            ri <= db.runs@.len(),
            pats == tags.spec_patterns(),
            oruns == old(db).runs@,
            oarts == old(db).artifacts@,
            catalog_coherent(pats, old(db).tags@),
            db.jobs == old(db).jobs,
            db.builds == old(db).builds,
            db.runs == old(db).runs,
            db.artifacts == old(db).artifacts,
            db.tags == old(db).tags,
            db.similarities == old(db).similarities,
            old(db).issues@.len() <= db.issues@.len(),
            old_len == old(db).issues@.len(),
            db.next_id - old(db).next_id == db.issues@.len() - old(db).issues@.len(),
            forall|i: int|
                0 <= i < old(db).issues@.len() ==> #[trigger] db.issues@[i] == old(db).issues@[i],
            forall|i: int|
                old(db).issues@.len() <= i < db.issues@.len() ==> #[trigger] fresh_issue_ok(
                    oruns,
                    oarts,
                    pats,
                    db.issues@[i],
                ),
            forall|w: int|
                0 <= w < ri && (#[trigger] oruns[w]).item.tag_schema is None ==> run_fields_stored(
                    db.issues@,
                    old_len,
                    oruns,
                    oarts,
                    pats,
                    w,
                ),
        decreases db.runs@.len() - ri,
    {
        if db.runs[ri].item.tag_schema.is_none() {
            let run_id = db.runs[ri].id;
            proof {
                assert(db.runs@[ri as int].id == run_id);
                assert(has_id(oruns, run_id));
                let v = choose|v: int| 0 <= v < oruns.len() && #[trigger] oruns[v].id == run_id;
                assert(v == ri as int) by {
                    if v != ri as int {
                        assert(oruns[v].id != oruns[ri as int].id);
                    }
                }
                assert(row_by_id(oruns, run_id) == oruns[ri as int]);
                assert(run_unparsed(oruns, run_id));
            }
            let name_text = clone_bytes(&db.runs[ri].item.display_name);
            let ghost pre_db = *db;
            let res = process_field(db, tags, run_id, Field::RunName, &name_text, None);
            proof {
                assert forall|i: int|
                    old(db).issues@.len() <= i < db.issues@.len() implies #[trigger] fresh_issue_ok(
                    oruns,
                    oarts,
                    pats,
                    db.issues@[i],
                ) by {
                    if i < pre_db.issues@.len() {
                        assert(db.issues@[i] == pre_db.issues@[i]);
                        assert(fresh_issue_ok(oruns, oarts, pats, pre_db.issues@[i]));
                    } else {
                        assert(parsed_row(pre_db.runs@, pre_db.artifacts@, pats, db.issues@[i], run_id));
                    }
                }
                assert forall|w: int|
                    0 <= w < ri && (#[trigger] oruns[w]).item.tag_schema is None
                        implies run_fields_stored(db.issues@, old_len, oruns, oarts, pats, w) by {
                    assert(run_fields_stored(pre_db.issues@, old_len, oruns, oarts, pats, w));
                    lemma_run_fields_stored_mono(
                        pre_db.issues@,
                        db.issues@,
                        old_len,
                        oruns,
                        oarts,
                        pats,
                        w,
                    );
                }
            }
            match res {
                Ok(()) => (),
                Err(e) => {
                    return Err(e);
                },
            }
            proof {
                assert forall|k: int|
                    0 <= k < pats.len() && (#[trigger] pats[k]).spec_item().item.field
                        == Field::RunName implies findings_stored(
                    db.issues@,
                    old_len,
                    oruns[ri as int].item.display_name@,
                    pats[k],
                    run_id,
                    None,
                ) by {
                    assert(findings_stored(
                        db.issues@,
                        pre_db.issues@.len() as int,
                        name_text@,
                        pats[k],
                        run_id,
                        None,
                    ));
                    lemma_findings_stored_mono(
                        db.issues@,
                        db.issues@,
                        pre_db.issues@.len() as int,
                        old_len,
                        name_text@,
                        pats[k],
                        run_id,
                        None,
                    );
                    assert(name_text@ == oruns[ri as int].item.display_name@);
                }
            }
            let log_text = match &db.runs[ri].item.log {
                Some(l) => Some(clone_bytes(l)),
                None => None,
            };
            match log_text {
                Some(lt) => {
                    let ghost pre_db2 = *db;
                    let res2 = process_field(db, tags, run_id, Field::Console, &lt, None);
                    proof {
                        assert forall|i: int|
                            old(db).issues@.len() <= i < db.issues@.len()
                                implies #[trigger] fresh_issue_ok(
                            oruns,
                            oarts,
                            pats,
                            db.issues@[i],
                        ) by {
                            if i < pre_db2.issues@.len() {
                                assert(db.issues@[i] == pre_db2.issues@[i]);
                                assert(fresh_issue_ok(oruns, oarts, pats, pre_db2.issues@[i]));
                            } else {
                                assert(parsed_row(
                                    pre_db2.runs@,
                                    pre_db2.artifacts@,
                                    pats,
                                    db.issues@[i],
                                    run_id,
                                ));
                            }
                        }
                    }
                    proof {
                        assert forall|w: int|
                            0 <= w < ri && (#[trigger] oruns[w]).item.tag_schema is None
                                implies run_fields_stored(db.issues@, old_len, oruns, oarts, pats, w)
                            by {
                            assert(run_fields_stored(pre_db2.issues@, old_len, oruns, oarts, pats, w));
                            lemma_run_fields_stored_mono(
                                pre_db2.issues@,
                                db.issues@,
                                old_len,
                                oruns,
                                oarts,
                                pats,
                                w,
                            );
                        }
                    }
                    match res2 {
                        Ok(()) => (),
                        Err(e) => {
                            return Err(e);
                        },
                    }
                    proof {
                        assert forall|k: int|
                            0 <= k < pats.len() && (#[trigger] pats[k]).spec_item().item.field
                                == Field::RunName implies findings_stored(
                            db.issues@,
                            old_len,
                            oruns[ri as int].item.display_name@,
                            pats[k],
                            run_id,
                            None,
                        ) by {
                            assert(findings_stored(
                                pre_db2.issues@,
                                old_len,
                                oruns[ri as int].item.display_name@,
                                pats[k],
                                run_id,
                                None,
                            ));
                            lemma_findings_stored_mono(
                                pre_db2.issues@,
                                db.issues@,
                                old_len,
                                old_len,
                                oruns[ri as int].item.display_name@,
                                pats[k],
                                run_id,
                                None,
                            );
                        }
                        assert forall|k: int|
                            0 <= k < pats.len() && (#[trigger] pats[k]).spec_item().item.field
                                == Field::Console implies findings_stored(
                            db.issues@,
                            old_len,
                            oruns[ri as int].item.log->0@,
                            pats[k],
                            run_id,
                            None,
                        ) by {
                            assert(findings_stored(
                                db.issues@,
                                pre_db2.issues@.len() as int,
                                lt@,
                                pats[k],
                                run_id,
                                None,
                            ));
                            lemma_findings_stored_mono(
                                db.issues@,
                                db.issues@,
                                pre_db2.issues@.len() as int,
                                old_len,
                                lt@,
                                pats[k],
                                run_id,
                                None,
                            );
                            assert(lt@ == oruns[ri as int].item.log->0@);
                        }
                    }
                },
                None => (),
            }
            let mut ai: usize = 0;
            while ai < db.artifacts.len()
                invariant
                    db.wf(),
                    ai <= db.artifacts@.len(),
                    ri < db.runs@.len(),
                    run_id == oruns[ri as int].id,
                    has_id(oruns, run_id),
                    row_by_id(oruns, run_id) == oruns[ri as int],
                    oruns[ri as int].item.tag_schema is None,
                    pats == tags.spec_patterns(),
                    oruns == old(db).runs@,
                    oarts == old(db).artifacts@,
                    old_len == old(db).issues@.len(),
                    catalog_coherent(pats, old(db).tags@),
                    db.jobs == old(db).jobs,
                    db.builds == old(db).builds,
                    db.runs == old(db).runs,
                    db.artifacts == old(db).artifacts,
                    db.tags == old(db).tags,
                    db.similarities == old(db).similarities,
                    old(db).issues@.len() <= db.issues@.len(),
                    db.next_id - old(db).next_id == db.issues@.len() - old(db).issues@.len(),
                    forall|i: int|
                        0 <= i < old(db).issues@.len() ==> #[trigger] db.issues@[i] == old(
                            db,
                        ).issues@[i],
                    forall|i: int|
                        old(db).issues@.len() <= i < db.issues@.len() ==> #[trigger] fresh_issue_ok(
                            oruns,
                            oarts,
                            pats,
                            db.issues@[i],
                        ),
                    forall|w: int|
                        0 <= w < ri && (#[trigger] oruns[w]).item.tag_schema is None
                            ==> run_fields_stored(db.issues@, old_len, oruns, oarts, pats, w),
                    forall|k: int|
                        0 <= k < pats.len() && (#[trigger] pats[k]).spec_item().item.field
                            == Field::RunName ==> findings_stored(
                            db.issues@,
                            old_len,
                            oruns[ri as int].item.display_name@,
                            pats[k],
                            run_id,
                            None,
                        ),
                    oruns[ri as int].item.log is Some ==> forall|k: int|
                        0 <= k < pats.len() && (#[trigger] pats[k]).spec_item().item.field
                            == Field::Console ==> findings_stored(
                            db.issues@,
                            old_len,
                            oruns[ri as int].item.log->0@,
                            pats[k],
                            run_id,
                            None,
                        ),
                    forall|ai2: int, k: int|
                        0 <= ai2 < ai && (#[trigger] oarts[ai2]).item.run_id == run_id && is_utf8(
                            oarts[ai2].item.contents@,
                        ) && 0 <= k < pats.len() && (#[trigger] pats[k]).spec_item().item.field
                            == Field::Artifact ==> findings_stored(
                            db.issues@,
                            old_len,
                            oarts[ai2].item.contents@,
                            pats[k],
                            run_id,
                            Some(oarts[ai2].id),
                        ),
                decreases db.artifacts@.len() - ai,
            {
                let ghost pre_iter_issues = db.issues@;
                if db.artifacts[ai].item.run_id == run_id && utf8_ok(&db.artifacts[ai].item.contents)
                {
                    let aid = db.artifacts[ai].id;
                    let contents = clone_bytes(&db.artifacts[ai].item.contents);
                    proof {
                        assert(oarts[ai as int].id == aid);
                        assert(has_id(oarts, aid));
                        let v = choose|v: int| 0 <= v < oarts.len() && #[trigger] oarts[v].id == aid;
                        assert(v == ai as int) by {
                            if v != ai as int {
                                assert(oarts[v].id != oarts[ai as int].id);
                            }
                        }
                        assert(row_by_id(oarts, aid) == oarts[ai as int]);
                    }
                    let ghost pre_db3 = *db;
                    let res3 = process_field(db, tags, run_id, Field::Artifact, &contents, Some(aid));
                    proof {
                        assert forall|i: int|
                            old(db).issues@.len() <= i < db.issues@.len()
                                implies #[trigger] fresh_issue_ok(
                            oruns,
                            oarts,
                            pats,
                            db.issues@[i],
                        ) by {
                            if i < pre_db3.issues@.len() {
                                assert(db.issues@[i] == pre_db3.issues@[i]);
                                assert(fresh_issue_ok(oruns, oarts, pats, pre_db3.issues@[i]));
                            } else {
                                assert(parsed_row(
                                    pre_db3.runs@,
                                    pre_db3.artifacts@,
                                    pats,
                                    db.issues@[i],
                                    run_id,
                                ));
                            }
                        }
                    }
                    match res3 {
                        Ok(()) => (),
                        Err(e) => {
                            return Err(e);
                        },
                    }
                    proof {
                        assert forall|w: int|
                            0 <= w < ri && (#[trigger] oruns[w]).item.tag_schema is None
                                implies run_fields_stored(db.issues@, old_len, oruns, oarts, pats, w)
                            by {
                            assert(run_fields_stored(pre_db3.issues@, old_len, oruns, oarts, pats, w));
                            lemma_run_fields_stored_mono(
                                pre_db3.issues@,
                                db.issues@,
                                old_len,
                                oruns,
                                oarts,
                                pats,
                                w,
                            );
                        }
                        assert forall|k: int|
                            0 <= k < pats.len() && (#[trigger] pats[k]).spec_item().item.field
                                == Field::RunName implies findings_stored(
                            db.issues@,
                            old_len,
                            oruns[ri as int].item.display_name@,
                            pats[k],
                            run_id,
                            None,
                        ) by {
                            assert(findings_stored(
                                pre_db3.issues@,
                                old_len,
                                oruns[ri as int].item.display_name@,
                                pats[k],
                                run_id,
                                None,
                            ));
                            lemma_findings_stored_mono(
                                pre_db3.issues@,
                                db.issues@,
                                old_len,
                                old_len,
                                oruns[ri as int].item.display_name@,
                                pats[k],
                                run_id,
                                None,
                            );
                        }
                        if oruns[ri as int].item.log is Some {
                            assert forall|k: int|
                                0 <= k < pats.len() && (#[trigger] pats[k]).spec_item().item.field
                                    == Field::Console implies findings_stored(
                                db.issues@,
                                old_len,
                                oruns[ri as int].item.log->0@,
                                pats[k],
                                run_id,
                                None,
                            ) by {
                                assert(findings_stored(
                                    pre_db3.issues@,
                                    old_len,
                                    oruns[ri as int].item.log->0@,
                                    pats[k],
                                    run_id,
                                    None,
                                ));
                                lemma_findings_stored_mono(
                                    pre_db3.issues@,
                                    db.issues@,
                                    old_len,
                                    old_len,
                                    oruns[ri as int].item.log->0@,
                                    pats[k],
                                    run_id,
                                    None,
                                );
                            }
                        }
                        assert forall|ai2: int, k: int|
                            0 <= ai2 < ai + 1 && (#[trigger] oarts[ai2]).item.run_id == run_id
                                && is_utf8(oarts[ai2].item.contents@) && 0 <= k < pats.len() && (
                            #[trigger] pats[k]).spec_item().item.field == Field::Artifact
                                implies findings_stored(
                            db.issues@,
                            old_len,
                            oarts[ai2].item.contents@,
                            pats[k],
                            run_id,
                            Some(oarts[ai2].id),
                        ) by {
                            if ai2 < ai {
                                assert(findings_stored(
                                    pre_iter_issues,
                                    old_len,
                                    oarts[ai2].item.contents@,
                                    pats[k],
                                    run_id,
                                    Some(oarts[ai2].id),
                                ));
                                assert(pre_iter_issues == pre_db3.issues@);
                                lemma_findings_stored_mono(
                                    pre_db3.issues@,
                                    db.issues@,
                                    old_len,
                                    old_len,
                                    oarts[ai2].item.contents@,
                                    pats[k],
                                    run_id,
                                    Some(oarts[ai2].id),
                                );
                            } else {
                                assert(findings_stored(
                                    db.issues@,
                                    pre_db3.issues@.len() as int,
                                    contents@,
                                    pats[k],
                                    run_id,
                                    Some(aid),
                                ));
                                lemma_findings_stored_mono(
                                    db.issues@,
                                    db.issues@,
                                    pre_db3.issues@.len() as int,
                                    old_len,
                                    contents@,
                                    pats[k],
                                    run_id,
                                    Some(aid),
                                );
                                assert(contents@ == oarts[ai2].item.contents@);
                                assert(aid == oarts[ai2].id);
                            }
                        }
                    }
                }
                ai += 1;
            }
            proof {
                assert(run_fields_stored(db.issues@, old_len, oruns, oarts, pats, ri as int)) by {
                    assert(oruns[ri as int].id == run_id);
                }
                assert forall|w: int|
                    0 <= w < ri + 1 && (#[trigger] oruns[w]).item.tag_schema is None
                        implies run_fields_stored(db.issues@, old_len, oruns, oarts, pats, w) by {}
            }
        } else {
            proof {
                assert(oruns[ri as int].item.tag_schema is Some);
                assert forall|w: int|
                    0 <= w < ri + 1 && (#[trigger] oruns[w]).item.tag_schema is None
                        implies run_fields_stored(db.issues@, old_len, oruns, oarts, pats, w) by {
                    assert(w < ri);
                }
            }
        }
        ri += 1;
    }
    let schema = tags.schema();
    db.update_tag_schema_for_runs(Some(schema));
    Ok(())
}


/// Whether `out` is the faithful resolution of some stored finding row:
/// same id, tag and duplicate count, with the snippet bytes read from the
/// field the finding's tag selects, and past the metadata filter.
pub open spec fn resolved_row(
    runs: Seq<InDatabase<Run>>,
    artifacts: Seq<InDatabase<Artifact>>,
    tags: Seq<InDatabase<TagInfo>>,
    issues: Seq<InDatabase<IssueInfo>>,
    out: InDatabase<Issue>,
    include_metadata: bool,
) -> bool {
    exists|w: int|
        0 <= w < issues.len() && {
            let iss = (#[trigger] issues[w]).item;
            &&& issues[w].id == out.id
            &&& iss.tag_id == out.item.tag_id
            &&& iss.duplicates == out.item.duplicates
            &&& out.item.snippet@ == issue_text(
                runs,
                artifacts,
                row_by_id(tags, iss.tag_id).item.field,
                iss,
            ).subrange(iss.snippet_start as int, iss.snippet_end as int)
            &&& (include_metadata || row_by_id(tags, iss.tag_id).item.severity != Severity::Metadata)
        }
}

/// Resolve every finding of the cache to its snippet bytes, excluding
/// metadata findings unless `include_metadata` is set.
#[verifier::rlimit(60)]
#[verifier::spinoff_prover]
pub fn select_all_issues(db: &Database, include_metadata: bool) -> (r: Vec<InDatabase<Issue>>)
    requires
        db.wf(),
    ensures
        forall|i: int, j: int| 0 <= i < j < r@.len() ==> (#[trigger] r@[i]).id != (#[trigger] r@[j]).id,
        forall|i: int|
            0 <= i < r@.len() ==> #[trigger] resolved_row(
                db.runs@,
                db.artifacts@,
                db.tags@,
                db.issues@,
                r@[i],
                include_metadata,
            ),
        forall|i: int| 0 <= i < r@.len() ==> has_id(db.issues@, (#[trigger] r@[i]).id),
        forall|w: int|
            0 <= w < db.issues@.len() && (include_metadata || row_by_id(
                db.tags@,
                (#[trigger] db.issues@[w]).item.tag_id,
            ).item.severity != Severity::Metadata) ==> exists|i: int|
                0 <= i < r@.len() && (#[trigger] r@[i]).id == db.issues@[w].id,
{
    let mut r: Vec<InDatabase<Issue>> = Vec::new();
    let mut k: usize = 0;
    while k < db.issues.len()
        invariant
            db.wf(),
            k <= db.issues@.len(),
            forall|i: int, j: int|
                0 <= i < j < r@.len() ==> (#[trigger] r@[i]).id != (#[trigger] r@[j]).id,
            forall|i: int|
                0 <= i < r@.len() ==> #[trigger] resolved_row(
                    db.runs@,
                    db.artifacts@,
                    db.tags@,
                    db.issues@,
                    r@[i],
                    include_metadata,
                ),
            forall|i: int| 0 <= i < r@.len() ==> has_id(db.issues@, (#[trigger] r@[i]).id),
            forall|i: int|
                0 <= i < r@.len() ==> exists|w: int|
                    0 <= w < k && (#[trigger] r@[i]).id == db.issues@[w].id,
            forall|w: int|
                0 <= w < k && (include_metadata || row_by_id(
                    db.tags@,
                    (#[trigger] db.issues@[w]).item.tag_id,
                ).item.severity != Severity::Metadata) ==> exists|i: int|
                    0 <= i < r@.len() && (#[trigger] r@[i]).id == db.issues@[w].id,
        decreases db.issues@.len() - k,
    {
        let row_id = db.issues[k].id;
        let iss = db.issues[k].item;
        proof {
            assert(issue_contained(db.runs@, db.tags@, db.artifacts@, db.issues@[k as int].item));
        }
        let tag_w = match find_by_id(&db.tags, iss.tag_id) {
            Some(w) => w,
            None => {
                proof {
                    assert(issue_contained(db.runs@, db.tags@, db.artifacts@, iss));
                    assert(false);
                }
                0
            },
        };
        let severity_ok = include_metadata || match db.tags[tag_w].item.severity {
            Severity::Metadata => false,
            _ => true,
        };
        let ghost pre_r = r@;
        if severity_ok {
            let tag_field = db.tags[tag_w].item.field;
            let snippet = match tag_field {
                Field::RunName => {
                    let run_w = match find_by_id(&db.runs, iss.run_id) {
                        Some(w) => w,
                        None => {
                            proof {
                                assert(issue_contained(db.runs@, db.tags@, db.artifacts@, iss));
                                assert(false);
                            }
                            0
                        },
                    };
                    copy_range(&db.runs[run_w].item.display_name, iss.snippet_start, iss.snippet_end)
                },
                Field::Console => {
                    let run_w = match find_by_id(&db.runs, iss.run_id) {
                        Some(w) => w,
                        None => {
                            proof {
                                assert(issue_contained(db.runs@, db.tags@, db.artifacts@, iss));
                                assert(false);
                            }
                            0
                        },
                    };
                    match &db.runs[run_w].item.log {
                        Some(l) => copy_range(l, iss.snippet_start, iss.snippet_end),
                        None => {
                            proof {
                                assert(issue_contained(db.runs@, db.tags@, db.artifacts@, iss));
                                assert(false);
                            }
                            Vec::new()
                        },
                    }
                },
                Field::Artifact => {
                    let aid = match iss.artifact_id {
                        Some(a) => a,
                        None => {
                            proof {
                                assert(issue_contained(db.runs@, db.tags@, db.artifacts@, iss));
                                assert(false);
                            }
                            0
                        },
                    };
                    let art_w = match find_by_id(&db.artifacts, aid) {
                        Some(w) => w,
                        None => {
                            proof {
                                assert(issue_contained(db.runs@, db.tags@, db.artifacts@, iss));
                                assert(false);
                            }
                            0
                        },
                    };
                    copy_range(&db.artifacts[art_w].item.contents, iss.snippet_start, iss.snippet_end)
                },
            };
            let out = InDatabase {
                id: row_id,
                item: Issue { snippet, tag_id: iss.tag_id, duplicates: iss.duplicates },
            };
            proof {
                assert(resolved_row(db.runs@, db.artifacts@, db.tags@, db.issues@, out, include_metadata)) by {
                    assert(db.issues@[k as int].id == out.id);
                    assert(row_by_id(db.tags@, iss.tag_id) == db.tags@[tag_w as int]);
                }
            }
            r.push(out);
            proof {
                assert forall|i: int, j: int|
                    0 <= i < j < r@.len() implies (#[trigger] r@[i]).id != (#[trigger] r@[j]).id by {
                    if j == r@.len() - 1 {
                        assert(r@[i] == pre_r[i]);
                        let w = choose|w: int| 0 <= w < k && pre_r[i].id == #[trigger] db.issues@[w].id;
                        assert(db.issues@[w].id != db.issues@[k as int].id);
                    } else {
                        assert(r@[i] == pre_r[i] && r@[j] == pre_r[j]);
                    }
                }
            }
        }
        proof {
            assert(row_by_id(db.tags@, iss.tag_id) == db.tags@[tag_w as int]);
            assert forall|w: int|
                0 <= w < k + 1 && (include_metadata || row_by_id(
                    db.tags@,
                    (#[trigger] db.issues@[w]).item.tag_id,
                ).item.severity != Severity::Metadata) implies exists|i: int|
                0 <= i < r@.len() && (#[trigger] r@[i]).id == db.issues@[w].id by {
                if w < k {
                    let i = choose|i: int|
                        0 <= i < pre_r.len() && (#[trigger] pre_r[i]).id == db.issues@[w].id;
                    assert(r@[i] == pre_r[i]);
                    assert(r@[i].id == db.issues@[w].id);
                } else {
                    assert(severity_ok);
                    assert(r@[r@.len() - 1].id == db.issues@[k as int].id);
                }
            }
        }
        k += 1;
    }
    r
}

} // verus!

