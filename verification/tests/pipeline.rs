use build_pulse::api::{builds_to_pull, jobs_to_pull, needs_console, needs_fetch, AsJob};
use build_pulse::api::{SparseBuild, SparseJob, SparseMatrixProject, SparseRun};
use build_pulse::config::{BuildStatus, Field, Severity};
use build_pulse::db::{Artifact, BlobFormat, Database, InDatabase, Job, JobBuild, Run, TagInfo};
use build_pulse::parse::{
    levenshtein_distance, parse_unprocessed_runs, select_all_issues, upsert_tags, Pattern,
    PatternSet,
};
use build_pulse::similarity::{calculate_similarities, group_hash, similar, sort_ids, Threshold};
use build_pulse::config::ConfigTag;
use build_pulse::db::stats::Statistics;
use build_pulse::page::{severity_as_class, status_as_class, status_as_str};
use build_pulse::parse::CatalogError;
use build_pulse::tag_expr::TagExpr;

fn threshold_of(tau: f64) -> Threshold {
    let l = -(tau.ln());
    Threshold { num: (l * 1_000_000_000.0) as u64, den: 1_000_000_000 }
}

fn job(name: &str, url: &str) -> Job {
    Job { name: name.as_bytes().to_vec(), url: url.as_bytes().to_vec(), last_build: None }
}

fn build(url: &str, number: u32, job_id: i64, status: Option<BuildStatus>) -> JobBuild {
    JobBuild { url: url.as_bytes().to_vec(), status, number, timestamp: 1000, job_id }
}

fn run(url: &str, name: &str, status: Option<BuildStatus>, log: Option<&str>, build_id: i64) -> Run {
    Run {
        url: url.as_bytes().to_vec(),
        status,
        display_name: name.as_bytes().to_vec(),
        log: log.map(|l| l.as_bytes().to_vec()),
        tag_schema: None,
        build_id,
    }
}

fn tag(name: &str, pattern: &str, from: Field, severity: Severity) -> ConfigTag {
    ConfigTag {
        name: name.as_bytes().to_vec(),
        desc: format!("tag {}", name).into_bytes(),
        pattern: pattern.as_bytes().to_vec(),
        from,
        severity,
    }
}

#[test]
fn cold_start_no_findings() {
    let mut db = Database::new();
    let j = db.upsert_job(job("J", "http://ci/j"));
    let b = db.upsert_build(build("http://ci/j/1", 1, j.id, Some(BuildStatus::Success)));
    let _r = db.upsert_run(run("http://ci/j/1/r", "R", Some(BuildStatus::Success), None, b.id));
    let ts = upsert_tags(&mut db, &vec![]).unwrap();
    parse_unprocessed_runs(&mut db, &ts).unwrap();
    assert_eq!(db.jobs.len(), 1);
    assert_eq!(db.builds.len(), 1);
    assert_eq!(db.runs.len(), 1);
    assert_eq!(db.issues.len(), 0);
    assert_eq!(db.similarities.len(), 0);
    assert_eq!(db.tags.len(), 0);
    assert_eq!(db.runs[0].item.tag_schema, Some(ts.schema()));
}

#[test]
fn classify_a_failure() {
    let mut db = Database::new();
    let j = db.upsert_job(job("J", "http://ci/j"));
    let b = db.upsert_build(build("http://ci/j/1", 1, j.id, Some(BuildStatus::Failure)));
    let log = "prelude\nsegmentation fault at 0x1\nsegmentation fault at 0x2\nepilogue";
    let _r = db.upsert_run(run(
        "http://ci/j/1/r",
        "R",
        Some(BuildStatus::Failure),
        Some(log),
        b.id,
    ));
    let catalog = vec![tag("segfault", "segmentation fault", Field::Console, Severity::Error)];
    let ts = upsert_tags(&mut db, &catalog).unwrap();
    parse_unprocessed_runs(&mut db, &ts).unwrap();
    assert_eq!(db.issues.len(), 1);
    assert_eq!(db.issues[0].item.duplicates, 1);
    let issues = select_all_issues(&db, false);
    assert_eq!(issues.len(), 1);
    assert_eq!(issues[0].item.snippet, b"segmentation fault".to_vec());
    assert_eq!(db.runs[0].item.tag_schema, Some(ts.schema()));
}

#[test]
fn cache_hit_across_runs() {
    let mut db = Database::new();
    let j = db.upsert_job(job("J", "http://ci/j"));
    let b = db.upsert_build(build("http://ci/j/1", 1, j.id, Some(BuildStatus::Failure)));
    let _r = db.upsert_run(run(
        "http://ci/j/1/r",
        "R",
        Some(BuildStatus::Failure),
        Some("segmentation fault"),
        b.id,
    ));
    let catalog = vec![tag("segfault", "segmentation fault", Field::Console, Severity::Error)];
    let ts = upsert_tags(&mut db, &catalog).unwrap();
    parse_unprocessed_runs(&mut db, &ts).unwrap();
    let issues_before = db.issues.len();
    let runs_before = db.runs.len();

    // The same inputs again: the run is already cached, so no fetch is
    // needed, and a second invocation changes no row counts.
    assert!(!needs_fetch(&db, b"http://ci/j/1/r"));
    let ts2 = upsert_tags(&mut db, &catalog).unwrap();
    assert_eq!(ts2.schema(), ts.schema());
    let purged = db.purge_invalid_issues_by_tag_schema(ts2.schema());
    assert_eq!(purged, 0);
    parse_unprocessed_runs(&mut db, &ts2).unwrap();
    assert_eq!(db.issues.len(), issues_before);
    assert_eq!(db.runs.len(), runs_before);
}

#[test]
fn catalog_change_invalidates_parsing() {
    let mut db = Database::new();
    let j = db.upsert_job(job("J", "http://ci/j"));
    let b = db.upsert_build(build("http://ci/j/1", 1, j.id, Some(BuildStatus::Failure)));
    let _r = db.upsert_run(run(
        "http://ci/j/1/r",
        "R",
        Some(BuildStatus::Failure),
        Some("segmentation fault here"),
        b.id,
    ));
    let ts = upsert_tags(
        &mut db,
        &vec![tag("segfault", "segmentation fault", Field::Console, Severity::Error)],
    )
    .unwrap();
    parse_unprocessed_runs(&mut db, &ts).unwrap();
    assert_eq!(db.issues.len(), 1);

    // A changed pattern changes the fingerprint and restores the unparsed
    // state; reparsing works from the cached log.
    let ts2 = upsert_tags(
        &mut db,
        &vec![tag("segfault", "seg.*fault", Field::Console, Severity::Error)],
    )
    .unwrap();
    assert_ne!(ts2.schema(), ts.schema());
    let reset = db.purge_invalid_issues_by_tag_schema(ts2.schema());
    assert_eq!(reset, 1);
    assert_eq!(db.issues.len(), 0);
    assert_eq!(db.runs[0].item.tag_schema, None);
    parse_unprocessed_runs(&mut db, &ts2).unwrap();
    assert_eq!(db.issues.len(), 1);
    assert_eq!(db.runs[0].item.tag_schema, Some(ts2.schema()));
}

#[test]
fn blocklist_cascades() {
    let mut db = Database::new();
    let j = db.upsert_job(job("J", "http://ci/j"));
    let b = db.upsert_build(build("http://ci/j/1", 1, j.id, Some(BuildStatus::Failure)));
    let r = db.upsert_run(run(
        "http://ci/j/1/r",
        "R",
        Some(BuildStatus::Failure),
        Some("segmentation fault"),
        b.id,
    ));
    let _a = db.insert_artifact(Artifact {
        path: b"out.txt".to_vec(),
        contents: b"hello".to_vec(),
        run_id: r,
    });
    let ts = upsert_tags(
        &mut db,
        &vec![tag("segfault", "segmentation fault", Field::Console, Severity::Error)],
    )
    .unwrap();
    parse_unprocessed_runs(&mut db, &ts).unwrap();
    assert!(db.issues.len() > 0);

    let removed = db.purge_blocklisted_jobs(&vec![b"J".to_vec()]);
    assert_eq!(removed, 1);
    assert_eq!(db.jobs.len(), 0);
    assert_eq!(db.builds.len(), 0);
    assert_eq!(db.runs.len(), 0);
    assert_eq!(db.artifacts.len(), 0);
    assert_eq!(db.issues.len(), 0);
    assert_eq!(db.similarities.len(), 0);
}

fn two_finding_db(tau: f64) -> Database {
    let mut db = Database::new();
    let j = db.upsert_job(job("J", "http://ci/j"));
    let b = db.upsert_build(build("http://ci/j/1", 1, j.id, Some(BuildStatus::Failure)));
    let _r1 = db.upsert_run(run(
        "http://ci/j/1/r1",
        "R1",
        Some(BuildStatus::Failure),
        Some("error at line 100"),
        b.id,
    ));
    let _r2 = db.upsert_run(run(
        "http://ci/j/1/r2",
        "R2",
        Some(BuildStatus::Failure),
        Some("error at line 101"),
        b.id,
    ));
    let ts = upsert_tags(
        &mut db,
        &vec![tag("errline", "error at line [0-9]+", Field::Console, Severity::Error)],
    )
    .unwrap();
    parse_unprocessed_runs(&mut db, &ts).unwrap();
    let issues = select_all_issues(&db, false);
    assert_eq!(issues.len(), 2);
    calculate_similarities(&issues, threshold_of(tau), &mut db).unwrap();
    db
}

#[test]
fn similarity_cluster_accepts_at_low_threshold() {
    // Distance 1 over length 19: normalized about 0.946, above 0.9.
    let db = two_finding_db(0.9);
    assert_eq!(db.similarities.len(), 2);
    assert_eq!(
        db.similarities[0].item.similarity_hash,
        db.similarities[1].item.similarity_hash
    );
    let groups = db.get_similarities();
    assert_eq!(groups.len(), 1);
    assert_eq!(groups[0].issue_ids.len(), 2);
}

#[test]
fn similarity_cluster_rejects_at_high_threshold() {
    // Normalized about 0.946 is below 0.95: two singleton groups, and
    // singletons are never stored.
    let db = two_finding_db(0.95);
    assert_eq!(db.similarities.len(), 0);
}

#[test]
fn upsert_job_is_idempotent() {
    let mut db = Database::new();
    let first = db.upsert_job(Job {
        name: b"J".to_vec(),
        url: b"http://ci/j".to_vec(),
        last_build: Some(7),
    });
    let jobs_after_one: Vec<(i64, Vec<u8>, Option<u32>)> =
        db.jobs.iter().map(|r| (r.id, r.item.name.clone(), r.item.last_build)).collect();
    let second = db.upsert_job(Job {
        name: b"J".to_vec(),
        url: b"http://ci/j".to_vec(),
        last_build: Some(7),
    });
    let jobs_after_two: Vec<(i64, Vec<u8>, Option<u32>)> =
        db.jobs.iter().map(|r| (r.id, r.item.name.clone(), r.item.last_build)).collect();
    assert_eq!(first.id, second.id);
    assert_eq!(jobs_after_one, jobs_after_two);
    assert_eq!(db.jobs.len(), 1);
}

#[test]
fn upsert_run_refreshes_in_place() {
    let mut db = Database::new();
    let j = db.upsert_job(job("J", "http://ci/j"));
    let b = db.upsert_build(build("http://ci/j/1", 1, j.id, None));
    let r1 = db.upsert_run(run("http://ci/j/1/r", "R", None, None, b.id));
    let r2 = db.upsert_run(run(
        "http://ci/j/1/r",
        "R",
        Some(BuildStatus::Success),
        None,
        b.id,
    ));
    assert_eq!(r1, r2);
    assert_eq!(db.runs.len(), 1);
    assert_eq!(db.runs[0].item.status, Some(BuildStatus::Success));
}

#[test]
fn levenshtein_values() {
    assert_eq!(levenshtein_distance(b"", b""), 0);
    assert_eq!(levenshtein_distance(b"abc", b""), 3);
    assert_eq!(levenshtein_distance(b"", b"abc"), 3);
    assert_eq!(levenshtein_distance(b"kitten", b"sitting"), 3);
    assert_eq!(levenshtein_distance(b"flaw", b"lawn"), 2);
    assert_eq!(levenshtein_distance(b"error at line 100", b"error at line 101"), 1);
}

#[test]
fn similarity_threshold_boundaries() {
    // Identical snippets are always similar; fully distinct ones are not.
    let thr = threshold_of(0.9);
    assert!(similar(&b"same".to_vec(), &b"same".to_vec(), thr));
    assert!(!similar(&b"aaaa".to_vec(), &b"bbbb".to_vec(), thr));
    // The worked example: distance 1, longer length 19.
    assert!(similar(
        &b"error at line 100".to_vec(),
        &b"error at line 101".to_vec(),
        threshold_of(0.9),
    ));
    assert!(!similar(
        &b"error at line 100".to_vec(),
        &b"error at line 101".to_vec(),
        threshold_of(0.95),
    ));
}

#[test]
fn fingerprint_depends_on_name_and_pattern_only() {
    let mut db1 = Database::new();
    let mut t1 = tag("segfault", "segmentation fault", Field::Console, Severity::Error);
    t1.desc = b"one description".to_vec();
    let ts1 = upsert_tags(&mut db1, &vec![t1]).unwrap();

    let mut db2 = Database::new();
    let mut t2 = tag("segfault", "segmentation fault", Field::Console, Severity::Warning);
    t2.desc = b"another   description with   whitespace".to_vec();
    let ts2 = upsert_tags(&mut db2, &vec![t2]).unwrap();
    assert_eq!(ts1.schema(), ts2.schema());

    let mut db3 = Database::new();
    let t3 = tag("segfault", "seg.*fault", Field::Console, Severity::Error);
    let ts3 = upsert_tags(&mut db3, &vec![t3]).unwrap();
    assert_ne!(ts1.schema(), ts3.schema());
}

fn sql_of(e: TagExpr) -> (String, usize) {
    let (text, params) = e.to_sql_select().unwrap();
    (text, params.len())
}

#[test]
fn de_morgan_rows_agree() {
    let tags: Vec<InDatabase<TagInfo>> = vec![
        InDatabase::new(
            1,
            TagInfo {
                name: b"alpha".to_vec(),
                desc: b"".to_vec(),
                field: Field::Console,
                severity: Severity::Error,
            },
        ),
    ];
    let lhs = TagExpr::parse(b"!(t\"a\" && s\"Error\")").unwrap();
    let rhs = TagExpr::parse(b"(!t\"a\") || (!s\"Error\")").unwrap();
    let lhs_rows = lhs.eval_rows(&tags).unwrap();
    let rhs_rows = rhs.eval_rows(&tags).unwrap();
    assert_eq!(lhs_rows.len(), rhs_rows.len());
    for (a, b) in lhs_rows.into_iter().zip(rhs_rows.into_iter()) {
        assert_eq!(sql_of(a), sql_of(b));
    }
}

#[test]
fn generators_expand_against_catalog() {
    let tags: Vec<InDatabase<TagInfo>> = vec![
        InDatabase::new(
            1,
            TagInfo {
                name: b"net-timeout".to_vec(),
                desc: b"".to_vec(),
                field: Field::Console,
                severity: Severity::Error,
            },
        ),
        InDatabase::new(
            2,
            TagInfo {
                name: b"net-reset".to_vec(),
                desc: b"".to_vec(),
                field: Field::Console,
                severity: Severity::Warning,
            },
        ),
        InDatabase::new(
            3,
            TagInfo {
                name: b"disk".to_vec(),
                desc: b"".to_vec(),
                field: Field::Console,
                severity: Severity::Error,
            },
        ),
    ];
    let e = TagExpr::parse(b"T\"net-.*\"").unwrap();
    assert_eq!(e.eval_rows(&tags).unwrap().len(), 2);
    let e2 = TagExpr::parse(b"S\"Error\"").unwrap();
    assert_eq!(e2.eval_rows(&tags).unwrap().len(), 2);
    let e3 = TagExpr::parse(b"T\"net-.*\" && S\"Error\"").unwrap();
    assert_eq!(e3.eval_rows(&tags).unwrap().len(), 4);
}

#[test]
fn expression_precedence_and_associativity() {
    // "!" binds tightest, then "&&", then "||"; binaries associate left;
    // parentheses override. Shapes are compared through the compiled SQL.
    let by_parse = |src: &[u8]| TagExpr::parse(src).unwrap().to_sql_select().unwrap().0;
    let t = |p: &str| TagExpr::Tag(p.as_bytes().to_vec());

    let expect = TagExpr::Or(
        Box::new(t("a")),
        Box::new(TagExpr::And(Box::new(t("b")), Box::new(t("c")))),
    );
    assert_eq!(by_parse(b"t\"a\" || t\"b\" && t\"c\""), expect.to_sql_select().unwrap().0);

    let left_assoc = TagExpr::Or(
        Box::new(TagExpr::Or(Box::new(t("a")), Box::new(t("b")))),
        Box::new(t("c")),
    );
    assert_eq!(by_parse(b"t\"a\" || t\"b\" || t\"c\""), left_assoc.to_sql_select().unwrap().0);

    let tight_not = TagExpr::And(
        Box::new(TagExpr::Not(Box::new(t("a")))),
        Box::new(t("b")),
    );
    assert_eq!(by_parse(b"!t\"a\" && t\"b\""), tight_not.to_sql_select().unwrap().0);

    let grouped = TagExpr::And(
        Box::new(t("a")),
        Box::new(TagExpr::Or(Box::new(t("b")), Box::new(t("c")))),
    );
    assert_eq!(by_parse(b"t\"a\" && (t\"b\" || t\"c\")"), grouped.to_sql_select().unwrap().0);
}

#[test]
fn catalog_errors_are_reported_by_kind() {
    let mut db = Database::new();
    let dup = vec![
        tag("same", "x", Field::Console, Severity::Info),
        tag("same", "y", Field::Console, Severity::Info),
    ];
    match upsert_tags(&mut db, &dup) {
        Err(e) => assert_eq!(e, CatalogError::DuplicateName),
        Ok(_) => panic!("duplicate names must be rejected"),
    }
    let bad = vec![tag("bad", "(", Field::Console, Severity::Info)];
    match upsert_tags(&mut db, &bad) {
        Err(e) => assert_eq!(e, CatalogError::InvalidPattern),
        Ok(_) => panic!("an invalid pattern must be rejected"),
    }

    // A field change on a tag that findings still reference must fail.
    let j = db.upsert_job(job("J", "http://ci/j"));
    let b = db.upsert_build(build("http://ci/j/1", 1, j.id, Some(BuildStatus::Failure)));
    let _r = db.upsert_run(run(
        "http://ci/j/1/r",
        "R",
        Some(BuildStatus::Failure),
        Some("segmentation fault"),
        b.id,
    ));
    let ts = upsert_tags(
        &mut db,
        &vec![tag("segfault", "segmentation fault", Field::Console, Severity::Error)],
    )
    .unwrap();
    parse_unprocessed_runs(&mut db, &ts).unwrap();
    let moved = vec![tag("segfault", "segmentation fault", Field::RunName, Severity::Error)];
    match upsert_tags(&mut db, &moved) {
        Err(e) => assert_eq!(e, CatalogError::FieldConflict),
        Ok(_) => panic!("a field change on a referenced tag must be rejected"),
    }
}

#[test]
fn expression_parse_errors_carry_positions() {
    assert!(TagExpr::parse(b"t\"unterminated").is_err());
    assert!(TagExpr::parse(b"s\"NotASeverity\"").is_err());
    assert!(TagExpr::parse(b"t\"ok\" &&").is_err());
    assert!(TagExpr::parse(b"t\"(\"").is_err());
    assert!(TagExpr::parse(b"t\"x\" t\"y\"").is_err());
    assert!(TagExpr::parse(b"  t\"x\" || !s\"Info\" ").is_ok());
}

#[test]
fn run_selection_by_expression() {
    let mut db = Database::new();
    let j = db.upsert_job(job("J", "http://ci/j"));
    let b = db.upsert_build(build("http://ci/j/1", 1, j.id, Some(BuildStatus::Failure)));
    let r1 = db.upsert_run(run(
        "http://ci/j/1/r1",
        "R1",
        Some(BuildStatus::Failure),
        Some("segmentation fault"),
        b.id,
    ));
    let _r2 = db.upsert_run(run(
        "http://ci/j/1/r2",
        "R2",
        Some(BuildStatus::Success),
        None,
        b.id,
    ));
    let ts = upsert_tags(
        &mut db,
        &vec![tag("segfault", "segmentation fault", Field::Console, Severity::Error)],
    )
    .unwrap();
    parse_unprocessed_runs(&mut db, &ts).unwrap();
    let e = TagExpr::parse(b"t\"seg.*\"").unwrap();
    let ids = build_pulse::tag_expr::get_run_ids_by_expr(&db, &e).unwrap();
    assert_eq!(ids, vec![r1]);
    let none = TagExpr::parse(b"s\"Info\"").unwrap();
    assert_eq!(build_pulse::tag_expr::get_run_ids_by_expr(&db, &none).unwrap().len(), 0);
}

#[test]
fn statistics_over_latest_builds() {
    let mut db = Database::new();
    let j = db.upsert_job(job("J", "http://ci/j"));
    let b1 = db.upsert_build(build("http://ci/j/1", 1, j.id, Some(BuildStatus::Failure)));
    let b2 = db.upsert_build(build("http://ci/j/2", 2, j.id, Some(BuildStatus::Success)));
    let _old = db.upsert_run(run(
        "http://ci/j/1/r",
        "R",
        Some(BuildStatus::Failure),
        Some("boom"),
        b1.id,
    ));
    let newer = db.upsert_run(run(
        "http://ci/j/2/r",
        "R",
        Some(BuildStatus::Success),
        None,
        b2.id,
    ));
    let stats = Statistics::query(&db);
    assert_eq!(stats.total_jobs, 1);
    assert_eq!(stats.successful_jobs, 1);
    assert_eq!(stats.successful, vec![newer]);
    assert_eq!(stats.failures.len(), 0);
    assert_eq!(stats.issues_found, 0);
    assert_eq!(stats.unknown_runs.len(), 0);
}

#[test]
fn unknown_failures_are_reported() {
    let mut db = Database::new();
    let j = db.upsert_job(job("J", "http://ci/j"));
    let b = db.upsert_build(build("http://ci/j/1", 1, j.id, Some(BuildStatus::Failure)));
    let r = db.upsert_run(run(
        "http://ci/j/1/r",
        "R",
        Some(BuildStatus::Failure),
        Some("nothing the catalog knows"),
        b.id,
    ));
    let ts = upsert_tags(
        &mut db,
        &vec![tag("segfault", "segmentation fault", Field::Console, Severity::Error)],
    )
    .unwrap();
    parse_unprocessed_runs(&mut db, &ts).unwrap();
    let stats = Statistics::query(&db);
    assert_eq!(stats.unknown_runs, vec![r]);
    assert_eq!(stats.issues_found, 0);
}

#[test]
fn purge_old_builds_keeps_the_latest() {
    let mut db = Database::new();
    let j = db.upsert_job(Job {
        name: b"J".to_vec(),
        url: b"http://ci/j".to_vec(),
        last_build: Some(2),
    });
    let b1 = db.upsert_build(build("http://ci/j/1", 1, j.id, Some(BuildStatus::Failure)));
    let b2 = db.upsert_build(build("http://ci/j/2", 2, j.id, Some(BuildStatus::Success)));
    let _r1 = db.upsert_run(run("http://ci/j/1/r", "R", Some(BuildStatus::Failure), None, b1.id));
    let _r2 = db.upsert_run(run("http://ci/j/2/r", "R", Some(BuildStatus::Success), None, b2.id));
    db.purge_old_builds();
    assert_eq!(db.builds.len(), 1);
    assert_eq!(db.builds[0].item.number, 2);
    assert_eq!(db.runs.len(), 1);
    assert_eq!(db.runs[0].item.build_id, b2.id);
}

#[test]
fn orphan_tags_are_collected() {
    let mut db = Database::new();
    let ts = upsert_tags(
        &mut db,
        &vec![tag("unused", "never matches anything here", Field::Console, Severity::Info)],
    )
    .unwrap();
    let _ = ts;
    assert_eq!(db.tags.len(), 1);
    db.purge_orphan_tags();
    assert_eq!(db.tags.len(), 0);
}

#[test]
fn puller_decisions() {
    let project = SparseMatrixProject {
        jobs: vec![
            SparseJob {
                name: b"J".to_vec(),
                url: b"http://ci/j".to_vec(),
                builds: vec![SparseBuild {
                    number: 3,
                    url: b"http://ci/j/3".to_vec(),
                    timestamp: 5,
                    result: Some(BuildStatus::Failure),
                    runs: vec![
                        SparseRun { url: b"http://ci/j/3/r".to_vec(), number: 3 },
                        SparseRun { url: b"http://ci/j/2/r".to_vec(), number: 2 },
                    ],
                }],
            },
            SparseJob { name: b"K".to_vec(), url: b"http://ci/k".to_vec(), builds: vec![] },
        ],
    };
    let picked = jobs_to_pull(&project, &vec![b"K".to_vec()]);
    assert_eq!(picked, vec![0]);
    assert_eq!(builds_to_pull(&project.jobs[0], 10), 1);
    assert_eq!(builds_to_pull(&project.jobs[0], 0), 0);
    let candidates = build_pulse::api::runs_to_pull(&project.jobs[0].builds[0]);
    assert_eq!(candidates, vec![0]);
    assert!(needs_console(&Some(BuildStatus::Failure)));
    assert!(needs_console(&Some(BuildStatus::Unstable)));
    assert!(needs_console(&Some(BuildStatus::Aborted)));
    assert!(!needs_console(&Some(BuildStatus::Success)));
    assert!(!needs_console(&None));
    let as_row = project.jobs[0].as_job();
    assert_eq!(as_row.last_build, Some(3));
}

#[test]
fn render_helpers() {
    assert_eq!(status_as_str(&Some(BuildStatus::Success)), "good");
    assert_eq!(status_as_str(&None), "no build");
    assert_eq!(status_as_class(&Some(BuildStatus::Failure)), Some("error"));
    assert_eq!(status_as_class(&Some(BuildStatus::Success)), None);
    assert_eq!(severity_as_class(&Severity::Warning), Some("warning"));
    assert_eq!(severity_as_class(&Severity::Metadata), None);
}

#[test]
fn blob_formats() {
    let mk = |bytes: &[u8]| Artifact { path: b"p".to_vec(), contents: bytes.to_vec(), run_id: 1 };
    assert_eq!(mk(b"").blob_format(), BlobFormat::Null);
    assert_eq!(
        mk(&[0x89, 0x50, 0x4e, 0x47, 0x0d, 0x0a, 0x1a, 0x0a, 1, 2]).blob_format(),
        BlobFormat::Png
    );
    assert_eq!(mk(b"<html><svg width=\"2\"/></html>").blob_format(), BlobFormat::Svg);
    assert_eq!(mk(b"plain text").blob_format(), BlobFormat::Utf8);
    assert_eq!(mk(&[0xff, 0xfe, 0x00, 0x80]).blob_format(), BlobFormat::Unknown);
}

#[test]
fn pattern_findings_and_dedup() {
    let p = Pattern::new(
        InDatabase::new(
            1,
            TagInfo {
                name: b"word".to_vec(),
                desc: b"".to_vec(),
                field: Field::Console,
                severity: Severity::Info,
            },
        ),
        b"ab.".to_vec(),
    )
    .unwrap();
    let findings = p.grep_issue(&b"abc abd abc".to_vec());
    // Two distinct substrings: "abc" (twice) and "abd" (once).
    assert_eq!(findings.len(), 2);
    assert_eq!(findings[0].start, 0);
    assert_eq!(findings[0].end, 3);
    assert_eq!(findings[0].duplicates, 1);
    assert_eq!(findings[1].start, 4);
    assert_eq!(findings[1].end, 7);
    assert_eq!(findings[1].duplicates, 0);
    assert!(Pattern::new(
        InDatabase::new(
            1,
            TagInfo {
                name: b"bad".to_vec(),
                desc: b"".to_vec(),
                field: Field::Console,
                severity: Severity::Info,
            },
        ),
        b"(".to_vec(),
    )
    .is_none());
}

#[test]
fn pattern_set_composite_matching() {
    let mk = |name: &str, pat: &str| {
        Pattern::new(
            InDatabase::new(
                1,
                TagInfo {
                    name: name.as_bytes().to_vec(),
                    desc: b"".to_vec(),
                    field: Field::Console,
                    severity: Severity::Info,
                },
            ),
            pat.as_bytes().to_vec(),
        )
        .unwrap()
    };
    let set = PatternSet::new(vec![mk("a", "cat"), mk("b", "dog"), mk("c", "c.t")]).unwrap();
    let hits = set.grep_matches(&b"the cat sat".to_vec());
    assert_eq!(hits, vec![0, 2]);
    assert_eq!(set.len(), 3);
}

#[test]
fn group_hash_and_sort() {
    let sorted = sort_ids(&vec![3, 1, 2]);
    assert_eq!(sorted, vec![1, 2, 3]);
    let h1 = group_hash(&vec![1, 2, 3]);
    let h2 = group_hash(&vec![1, 2, 3]);
    let h3 = group_hash(&vec![1, 3, 2]);
    assert_eq!(h1, h2);
    assert_ne!(h1, h3);
}

#[test]
fn indatabase_wrapper() {
    let row = InDatabase::new(42, 7u32);
    assert_eq!(row.id, 42);
    assert_eq!(row.item(), 7);
}

#[test]
fn check_wf_accepts_a_fresh_cache_and_rejects_a_dangling_run() {
    let mut db = Database::new();
    let j = db.upsert_job(job("J", "http://ci/j"));
    let b = db.upsert_build(build("http://ci/j/1", 1, j.id, Some(BuildStatus::Success)));
    let _r = db.upsert_run(run("http://ci/j/1/r", "R", Some(BuildStatus::Success), None, b.id));
    assert!(db.check_wf());
    // A run pointing at a build id that no row carries breaks integrity.
    db.runs.push(InDatabase::new(
        9999,
        Run {
            url: b"http://ci/j/1/ghost".to_vec(),
            status: None,
            display_name: b"ghost".to_vec(),
            log: None,
            tag_schema: None,
            build_id: 12345,
        },
    ));
    assert!(!db.check_wf());
}

#[test]
fn check_wf_rejects_duplicate_row_ids() {
    let mut db = Database::new();
    let j = db.upsert_job(job("J", "http://ci/j"));
    db.jobs.push(InDatabase::new(j.id, job("J2", "http://ci/j2")));
    assert!(!db.check_wf());
}

#[test]
fn latest_similarities_resolves_groups_on_latest_builds() {
    let db = two_finding_db(0.9);
    let r1 = db.runs[0].id;
    let r2 = db.runs[1].id;
    let groups = build_pulse::db::stats::latest_similarities(&db);
    assert_eq!(groups.len(), 1);
    assert_eq!(groups[0].hash, db.similarities[0].item.similarity_hash);
    assert_eq!(groups[0].tag_id, db.tags[0].id);
    assert_eq!(groups[0].example, b"error at line 100".to_vec());
    assert_eq!(groups[0].related.len(), 2);
    assert!(groups[0].related.contains(&r1));
    assert!(groups[0].related.contains(&r2));
}

#[test]
fn latest_similarities_drops_groups_of_older_builds() {
    let mut db = two_finding_db(0.9);
    // A newer clean build supersedes the failing one: its findings no
    // longer sit on any latest run, so no group is reported.
    let j_id = db.jobs[0].id;
    let b2 = db.upsert_build(build("http://ci/j/2", 2, j_id, Some(BuildStatus::Success)));
    let _r = db.upsert_run(run("http://ci/j/2/r", "R", Some(BuildStatus::Success), None, b2.id));
    assert!(db.check_wf());
    let groups = build_pulse::db::stats::latest_similarities(&db);
    assert_eq!(groups.len(), 0);
}
