use r13y::diff_cache::{artifact_name, DiffCache};
use r13y::outcome::{scope_contains, select_outcomes, tally, Outcome, OutcomeStatus, OutputMismatch};
use r13y::report::{
    find_definition, find_output, plan_report, plan_report_now, schedule_diffs, DeclaredOutput, Definition,
    DiffRequest, ReportError, ReportPlan,
};
use r13y::summary::{cross_references, percent_text, CrossReference};
use r13y::text::contains_text;

const REV: &str = "abc123";

fn s(x: &str) -> String {
    x.to_string()
}

fn outcome(rev: &str, id: &str, status: OutcomeStatus) -> Outcome {
    Outcome { revision: s(rev), definition: s(id), status }
}

fn mismatch(output: &str, a: &str, b: &str) -> OutputMismatch {
    OutputMismatch { output: s(output), hash_a: s(a), hash_b: s(b) }
}

fn definition(id: &str, outputs: &[(&str, &str)]) -> Definition {
    Definition {
        id: s(id),
        outputs: outputs.iter().map(|(n, l)| DeclaredOutput { name: s(n), location: s(l) }).collect(),
    }
}

fn run(
    outcomes: &Vec<Outcome>,
    scope: &[&str],
    defs: &Vec<Definition>,
    table: &Vec<CrossReference>,
    present: Vec<String>,
) -> Result<ReportPlan, ReportError> {
    let scope: Vec<String> = scope.iter().map(|x| s(x)).collect();
    plan_report(outcomes, &s(REV), &scope, defs, table, present, s("2020-01-01 00:00:00 UTC"))
}

fn ok(r: Result<ReportPlan, ReportError>) -> ReportPlan {
    match r {
        Ok(p) => p,
        Err(ReportError::IncompleteVerification(ids)) => panic!("incomplete: {:?}", ids),
        Err(ReportError::MissingDefinition(id)) => panic!("missing definition: {}", id),
    }
}

fn diff_line(artifact: &str, output: &str) -> String {
    format!("<li><a href=\"./diff/{}\">(diffoscope)</a> {}</li>\n", artifact, output)
}

#[test]
fn scenario_a_single_reproducible() {
    let outs = vec![outcome(REV, "/nix/store/a-hello.drv", OutcomeStatus::Reproducible)];
    let p = ok(run(&outs, &["/nix/store/a-hello.drv"], &vec![], &vec![], vec![]));
    assert_eq!(p.payload.total_count, 1);
    assert_eq!(p.payload.reproduced_count, 1);
    assert_eq!(p.payload.unchecked_count, 0);
    assert_eq!(p.payload.percent, "100.00%");
    assert_eq!(p.payload.revision, REV);
    assert_eq!(p.payload.generated_at, "2020-01-01 00:00:00 UTC");
    assert_eq!(p.payload.unreproduced_fragment, "");
    assert!(p.diffs.is_empty());
}

#[test]
fn scenario_b_single_unreproducible() {
    let id = "/nix/store/b-foo.drv";
    let outs = vec![outcome(REV, id, OutcomeStatus::Unreproducible(vec![mismatch("out", "aaa", "bbb")]))];
    let defs = vec![definition(id, &[("out", "/nix/store/b-foo")])];
    let p = ok(run(&outs, &[id], &defs, &vec![], vec![]));
    let expected = format!("<li><code>{}</code><ul>\n{}</ul></li>\n", id, diff_line("aaa-bbb.html", "out"));
    assert_eq!(p.payload.unreproduced_fragment, expected);
    assert_eq!(p.payload.total_count, 1);
    assert_eq!(p.payload.reproduced_count, 0);
    assert_eq!(p.payload.percent, "0.00%");
    assert_eq!(p.diffs.len(), 1);
    assert_eq!(p.diffs[0].artifact, "aaa-bbb.html");
    assert_eq!(p.diffs[0].output, "out");
    assert_eq!(p.diffs[0].location, "/nix/store/b-foo");
    assert_eq!(p.diffs[0].hash_a, "aaa");
    assert_eq!(p.diffs[0].hash_b, "bbb");
}

#[test]
fn scenario_c_shared_key_computed_once() {
    let outs = vec![
        outcome(REV, "/nix/store/c1-x.drv", OutcomeStatus::Unreproducible(vec![mismatch("out", "aaa", "bbb")])),
        outcome(REV, "/nix/store/c2-y.drv", OutcomeStatus::Unreproducible(vec![mismatch("out", "aaa", "bbb")])),
    ];
    let defs = vec![
        definition("/nix/store/c1-x.drv", &[("out", "/nix/store/c1-x")]),
        definition("/nix/store/c2-y.drv", &[("out", "/nix/store/c2-y")]),
    ];
    let p = ok(run(&outs, &["/nix/store/c1-x.drv", "/nix/store/c2-y.drv"], &defs, &vec![], vec![]));
    assert_eq!(p.diffs.len(), 1);
    assert_eq!(p.diffs[0].artifact, "aaa-bbb.html");
    assert_eq!(p.payload.unreproduced_fragment.matches("./diff/aaa-bbb.html").count(), 2);
}

#[test]
fn scenario_d_first_failed_aborts() {
    let mut outs = vec![];
    let mut scope = vec![];
    let ids: Vec<String> = (0..10).map(|i| format!("/nix/store/d{}-p.drv", i)).collect();
    for (i, id) in ids.iter().enumerate() {
        let st = if i == 4 { OutcomeStatus::FirstFailed } else { OutcomeStatus::Reproducible };
        outs.push(outcome(REV, id, st));
        scope.push(id.as_str());
    }
    match run(&outs, &scope, &vec![], &vec![], vec![]) {
        Err(ReportError::IncompleteVerification(failed)) => assert_eq!(failed, vec![ids[4].clone()]),
        _ => panic!("a first-build failure must abort the report"),
    }
}

#[test]
fn empty_run_has_defined_percent() {
    let p = ok(run(&vec![], &[], &vec![], &vec![], vec![]));
    assert_eq!(p.payload.total_count, 0);
    assert_eq!(p.payload.percent, "n/a");
    assert_eq!(p.payload.unreproduced_fragment, "");
}

#[test]
fn counts_add_up_to_total() {
    let outs = vec![
        outcome(REV, "r1", OutcomeStatus::Reproducible),
        outcome(REV, "r2", OutcomeStatus::Reproducible),
        outcome(REV, "s1", OutcomeStatus::SecondFailed),
        outcome(REV, "f1", OutcomeStatus::FirstFailed),
        outcome(REV, "u1", OutcomeStatus::Unreproducible(vec![])),
    ];
    let scope: Vec<String> = ["r1", "r2", "s1", "f1", "u1"].iter().map(|x| s(x)).collect();
    let sel = select_outcomes(&outs, &s(REV), &scope);
    let t = tally(&outs, &sel);
    assert_eq!(t.total, 5);
    assert_eq!(t.reproduced, 2);
    assert_eq!(t.unchecked, 1);
    assert_eq!(t.first_failed, vec![3]);
    assert_eq!(t.unreproducible, vec![4]);
    assert_eq!(t.reproduced + t.unchecked + t.first_failed.len() + t.unreproducible.len(), t.total);
}

#[test]
fn filters_by_revision_and_scope() {
    let outs = vec![
        outcome(REV, "in", OutcomeStatus::Reproducible),
        outcome("other", "in", OutcomeStatus::FirstFailed),
        outcome(REV, "out-of-scope", OutcomeStatus::FirstFailed),
        outcome(REV, "in", OutcomeStatus::SecondFailed),
    ];
    let scope = vec![s("in")];
    assert_eq!(select_outcomes(&outs, &s(REV), &scope), vec![0, 3]);
    let p = ok(run(&outs, &["in"], &vec![], &vec![], vec![]));
    assert_eq!(p.payload.total_count, 2);
    assert_eq!(p.payload.reproduced_count, 1);
    assert_eq!(p.payload.unchecked_count, 1);
    assert_eq!(p.payload.percent, "50.00%");
}

#[test]
fn entries_keep_arrival_order() {
    let outs = vec![
        outcome(REV, "z-last", OutcomeStatus::Unreproducible(vec![mismatch("out", "h1", "h2"), mismatch("dev", "h3", "h4")])),
        outcome(REV, "a-first", OutcomeStatus::Unreproducible(vec![mismatch("out", "h5", "h6")])),
    ];
    let defs = vec![
        definition("a-first", &[("out", "/s/a")]),
        definition("z-last", &[("out", "/s/z"), ("dev", "/s/z-dev")]),
    ];
    let p = ok(run(&outs, &["a-first", "z-last"], &defs, &vec![], vec![]));
    let expected = format!(
        "<li><code>z-last</code><ul>\n{}{}</ul></li>\n<li><code>a-first</code><ul>\n{}</ul></li>\n",
        diff_line("h1-h2.html", "out"),
        diff_line("h3-h4.html", "dev"),
        diff_line("h5-h6.html", "out")
    );
    assert_eq!(p.payload.unreproduced_fragment, expected);
    let arts: Vec<&str> = p.diffs.iter().map(|d| d.artifact.as_str()).collect();
    assert_eq!(arts, vec!["h1-h2.html", "h3-h4.html", "h5-h6.html"]);
}

#[test]
fn all_matching_cross_references_are_linked() {
    let table = vec![
        CrossReference { pattern: s("gnupg"), link: s("https://example.org/gnupg") },
        CrossReference { pattern: s("udisks"), link: s("https://example.org/udisks") },
        CrossReference { pattern: s("gnu"), link: s("https://example.org/gnu") },
    ];
    assert_eq!(cross_references(&s("/nix/store/q-gnupg-2.2.drv"), &table), vec![0, 2]);
    let id = "/nix/store/q-gnupg-2.2.drv";
    let outs = vec![outcome(REV, id, OutcomeStatus::Unreproducible(vec![]))];
    let defs = vec![definition(id, &[])];
    let p = ok(run(&outs, &[id], &defs, &table, vec![]));
    let expected = format!(
        "<li><code>{}</code><ul>\n<li><a href=\"https://example.org/gnupg\">more info...</a></li>\n<li><a href=\"https://example.org/gnu\">more info...</a></li>\n</ul></li>\n",
        id
    );
    assert_eq!(p.payload.unreproduced_fragment, expected);
}

#[test]
fn undeclared_output_is_marked_not_diffed() {
    let id = "/nix/store/m-foo.drv";
    let outs = vec![outcome(REV, id, OutcomeStatus::Unreproducible(vec![mismatch("doc", "aaa", "bbb")]))];
    let defs = vec![definition(id, &[("out", "/nix/store/m-foo")])];
    let p = ok(run(&outs, &[id], &defs, &vec![], vec![]));
    let expected = format!(
        "<li><code>{}</code><ul>\n<li><code>doc</code>: not an output of this definition</li>\n</ul></li>\n",
        id
    );
    assert_eq!(p.payload.unreproduced_fragment, expected);
    assert!(p.diffs.is_empty());
}

#[test]
fn missing_definition_is_an_error() {
    let outs = vec![
        outcome(REV, "known", OutcomeStatus::Unreproducible(vec![])),
        outcome(REV, "unknown", OutcomeStatus::Unreproducible(vec![])),
    ];
    let defs = vec![definition("known", &[])];
    match run(&outs, &["known", "unknown"], &defs, &vec![], vec![]) {
        Err(ReportError::MissingDefinition(id)) => assert_eq!(id, "unknown"),
        _ => panic!("expected a missing definition"),
    }
}

#[test]
fn artifact_already_on_disk_is_not_recomputed() {
    let id = "/nix/store/e-foo.drv";
    let outs = vec![outcome(REV, id, OutcomeStatus::Unreproducible(vec![mismatch("out", "aaa", "bbb")]))];
    let defs = vec![definition(id, &[("out", "/nix/store/e-foo")])];
    let p = ok(run(&outs, &[id], &defs, &vec![], vec![s("aaa-bbb.html")]));
    assert!(p.diffs.is_empty());
    assert!(p.payload.unreproduced_fragment.contains("./diff/aaa-bbb.html"));
}

#[test]
fn cache_resolves_a_key_once() {
    let mut cache = DiffCache::new(vec![s("ccc-ddd.html")]);
    let first = cache.resolve(&s("aaa"), &s("bbb"));
    assert_eq!(first.artifact, "aaa-bbb.html");
    assert!(first.compute);
    let second = cache.resolve(&s("aaa"), &s("bbb"));
    assert_eq!(second.artifact, "aaa-bbb.html");
    assert!(!second.compute);
    assert!(!cache.resolve(&s("ccc"), &s("ddd")).compute);
    assert!(cache.is_known(&s("aaa-bbb.html")));
    assert!(!cache.is_known(&s("bbb-aaa.html")));
}

#[test]
fn schedule_keeps_first_request_of_each_key() {
    let req = |o: &str, a: &str, b: &str| DiffRequest {
        output: s(o),
        location: s("/loc"),
        hash_a: s(a),
        hash_b: s(b),
        artifact: artifact_name(&s(a), &s(b)),
    };
    let reqs = vec![req("out", "a", "b"), req("dev", "a", "b"), req("out", "b", "a")];
    let mut cache = DiffCache::new(vec![]);
    let jobs = schedule_diffs(&mut cache, &reqs);
    let arts: Vec<&str> = jobs.iter().map(|d| d.artifact.as_str()).collect();
    assert_eq!(arts, vec!["a-b.html", "b-a.html"]);
    assert_eq!(jobs[0].output, "out");
}

#[test]
fn artifact_names_follow_the_key() {
    assert_eq!(artifact_name(&s("aaa"), &s("bbb")), "aaa-bbb.html");
    assert_ne!(artifact_name(&s("aaa"), &s("bbb")), artifact_name(&s("bbb"), &s("aaa")));
    assert_ne!(artifact_name(&s("aa"), &s("abb")), artifact_name(&s("aaa"), &s("bb")));
}

#[test]
fn percent_is_rounded_to_two_decimals() {
    assert_eq!(percent_text(0, 0), "n/a");
    assert_eq!(percent_text(1, 1), "100.00%");
    assert_eq!(percent_text(2, 3), "66.67%");
    assert_eq!(percent_text(1, 3), "33.33%");
    assert_eq!(percent_text(973, 1000), "97.30%");
    assert_eq!(percent_text(9732, 10000), "97.32%");
    assert_eq!(percent_text(1, 32), "3.12%");
    assert_eq!(percent_text(3, 32), "9.38%");
    assert_eq!(percent_text(0, 7), "0.00%");
    assert_eq!(percent_text(1, 20000), "0.00%");
    assert_eq!(percent_text(3, 20000), "0.02%");
}

#[test]
fn text_search() {
    assert!(contains_text("/nix/store/x-opensc-0.20.drv", "opensc"));
    assert!(contains_text("abc", ""));
    assert!(contains_text("abc", "abc"));
    assert!(!contains_text("ab", "abc"));
    assert!(!contains_text("x86_64-linux.is", "x86_64-linux.iso"));
}

#[test]
fn lookups_find_first_match() {
    let defs = vec![definition("a", &[("out", "/1"), ("out", "/2")]), definition("b", &[])];
    assert_eq!(find_definition(&defs, &s("b")), Some(1));
    assert_eq!(find_definition(&defs, &s("c")), None);
    assert_eq!(find_output(&defs[0].outputs, &s("out")), Some(0));
    assert_eq!(find_output(&defs[0].outputs, &s("dev")), None);
    assert!(scope_contains(&vec![s("x"), s("y")], &s("y")));
    assert!(!scope_contains(&vec![s("x")], &s("xy")));
}

#[test]
fn now_stamped_report_has_a_timestamp() {
    let outs = vec![outcome(REV, "r", OutcomeStatus::Reproducible)];
    let p = ok(plan_report_now(&outs, &s(REV), &vec![s("r")], &vec![], &vec![], vec![]));
    assert!(p.payload.generated_at.ends_with("UTC"));
    assert_eq!(p.payload.percent, "100.00%");
}
