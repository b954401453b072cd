use existence::commands::audit::{
    accept, build, fix_suffixless_links, near, near_duplicate, run, stems, to_text, words_in,
    Classes, Finding, Report,
};
use existence::config::{Config, Meta, Ring, Waiver};
use existence::markdown::NodeFile;

fn node(title: &str, ontology: &str) -> String {
    format!("# {title}\n\n## Ontology\n\n{ontology}\n\n## Axiology\n\nx\n\n## Epistemology\n\ny\n")
}

fn file(term: &str, content: &str) -> NodeFile {
    NodeFile { term: term.to_string(), content: content.to_string() }
}

fn config(name: &str, terms: &[&str]) -> Config {
    Config {
        meta: Meta {
            name: name.to_string(),
            description: "d".to_string(),
            base_iri: None,
            vocab_iri: None,
        },
        rings: vec![Ring {
            level: 0,
            name: "kernel".to_string(),
            description: "core".to_string(),
            terms: terms.iter().map(|t| t.to_string()).collect(),
        }],
    }
}

fn setup() -> (Config, Vec<NodeFile>) {
    (
        config("test/ontology", &["entity", "signal", "signals", "ghost"]),
        vec![
            // Suffix-less links: one fixable (with a title), one to a missing node.
            file(
                "entity",
                &node(
                    "Entity",
                    "Anything with a [signal](./signal \"broader\") or an [echo](./echo).",
                ),
            ),
            file(
                "signal",
                &node("Signal", "Information that moves between entities."),
            ),
            file(
                "signals",
                &node("Signals", "Information that moves between entities, plural."),
            ),
            // Unringed, empty Ontology, missing Axiology: toc + lint findings.
            file("stray", "# Stray\n\n## Ontology\n\n## Epistemology\n\ny\n"),
        ],
    )
}

fn checks(report: &Report) -> Vec<(String, String, String)> {
    report
        .findings
        .iter()
        .map(|f| (f.check.clone(), f.term.clone(), f.severity.clone()))
        .collect()
}

#[test]
fn structure_reports_every_check_class() {
    let (config, mut nodes) = setup();
    let report = build(&config, &mut nodes, Classes::all(), false);
    assert_eq!(report.ontology, "test/ontology");
    assert_eq!(report.classes, ["structure"]);
    let c = checks(&report);
    let s = |a: &str, b: &str, d: &str| (a.to_string(), b.to_string(), d.to_string());
    assert!(c.contains(&s("link_suffix", "entity", "error")));
    assert!(c.contains(&s("lint", "stray", "error")));
    assert!(c.contains(&s("toc", "stray", "error")));
    assert!(c.contains(&s("toc", "ghost", "error")));
    assert!(c.contains(&s("near_duplicate", "signal", "warning")));
    // Two suffix-less links in entity: the existing target is fixable, the
    // missing one is not.
    let links: Vec<&Finding> = report
        .findings
        .iter()
        .filter(|f| f.check == "link_suffix")
        .collect();
    assert_eq!(links.len(), 2);
    assert_eq!(
        links[0].fix.as_deref(),
        Some("rewrite (./signal) to (./signal.md)")
    );
    assert!(links[1].message.contains("src/echo.md does not exist"));
    assert_eq!(links[1].fix, None);
    let dup = report
        .findings
        .iter()
        .find(|f| f.check == "near_duplicate")
        .unwrap();
    assert!(dup
        .message
        .starts_with("`signal` and `signals` look like the same term"));
    assert!(dup.message.ends_with("(definition similarity 0.83)"));
    assert_eq!(report.summary.fixable, 1);
    assert_eq!(report.summary.fixed, 0);
    assert!(!report.clean);
    assert!(report.summary.errors >= 5);
}

#[test]
fn fix_appends_md_only_where_the_target_exists() {
    let (config, mut nodes) = setup();
    let report = build(&config, &mut nodes, Classes::all(), true);
    let entity = nodes[0].content.clone();
    assert!(entity.contains("[signal](./signal.md \"broader\")"));
    assert!(entity.contains("[echo](./echo)"));
    let links: Vec<&Finding> = report
        .findings
        .iter()
        .filter(|f| f.check == "link_suffix")
        .collect();
    assert!(links[0].fixed);
    assert!(!links[1].fixed);
    assert_eq!(report.summary.fixed, 1);
    // The fixed link is not also a broken-link lint error; the missing
    // one is (lint sees `./echo` as no link at all, so nothing there).
    assert!(!report
        .findings
        .iter()
        .any(|f| f.check == "lint" && f.term == "entity"));
    // A second pass finds only the unfixable link.
    let again = build(&config, &mut nodes, Classes::all(), false);
    let links: Vec<&Finding> = again
        .findings
        .iter()
        .filter(|f| f.check == "link_suffix")
        .collect();
    assert_eq!(links.len(), 1);
    assert!(links[0].message.contains("echo"));
}

#[test]
fn suffixless_rewrite_preserves_anchor_and_title() {
    let existing: Vec<String> = vec!["scope".to_string(), "entity".to_string()];
    let text =
        "[a](./scope) [b](./scope#top) [c](./entity \"narrower\") [d](./gone) [e](./scope.md)";
    assert_eq!(
        fix_suffixless_links(text, &existing),
        "[a](./scope.md) [b](./scope.md#top) [c](./entity.md \"narrower\") [d](./gone) [e](./scope.md)"
    );
    assert_eq!(fix_suffixless_links(text, &vec![]), text);
}

#[test]
fn stems_pair_the_known_near_duplicates_only() {
    for (a, b) in [
        ("signal", "signals"),
        ("human", "humans"),
        ("agree", "agreement"),
        ("redefine", "redefinition"),
        ("abstract", "abstraction"),
        ("exist", "existence"),
    ] {
        assert!(near(a, b), "{a} / {b}");
        assert!(near(b, a), "{b} / {a}");
    }
    for (a, b) in [
        ("state", "story"),
        ("scope", "soul"),
        ("art", "arts"),
        ("spirit", "spirituality"),
        ("belief", "believe"),
    ] {
        assert!(!near(a, b), "{a} / {b}");
    }
    assert!(!near("signal", "signal"));
    assert_eq!(stems("redefine"), ["redefin", "redefine"]);
    assert!(stems("art").is_empty());
}

#[test]
fn clean_ontology_is_clean_and_json_has_the_report_keys() {
    let config = config("t", &["entity"]);
    let mut nodes = vec![file("entity", &node("Entity", "A thing."))];
    let report = build(&config, &mut nodes, Classes::default(), false);
    assert!(report.findings.is_empty());
    assert!(report.clean);
    assert_eq!(report.ontology, "t");
    assert!(report.classes.is_empty());
    assert_eq!(
        (
            report.summary.errors,
            report.summary.warnings,
            report.summary.fixable,
            report.summary.fixed
        ),
        (0, 0, 0, 0)
    );
    assert_eq!(
        to_text(&report),
        "audit (): 0 error(s), 0 warning(s), 0 fixable, 0 fixed — clean\n"
    );
    // `run` with no class flag runs every class and reports clean.
    let out = run(&config, &mut nodes, Classes::default(), "json", false).unwrap();
    assert!(out.report.clean);
    assert_eq!(out.report.classes, ["structure"]);
    assert!(out.text.is_none());
    let text = run(&config, &mut nodes, Classes::all(), "text", false).unwrap();
    assert_eq!(
        text.text.as_deref(),
        Some("audit (structure): 0 error(s), 0 warning(s), 0 fixable, 0 fixed — clean\n")
    );
    assert!(run(&config, &mut nodes, Classes::all(), "yaml", false).is_err());
}

#[test]
fn a_line_of_the_report_tells_severity_and_fix() {
    let (config, mut nodes) = setup();
    let report = build(&config, &mut nodes, Classes::all(), false);
    let text = to_text(&report);
    assert!(text.starts_with(
        "entity: [link_suffix] link [signal](./signal) is missing the .md suffix (fixable)\n"
    ));
    assert!(text.contains("signal: [near_duplicate] warn: `signal` and `signals`"));
    assert!(text.contains(" 1 fixable, 0 fixed — findings\n"));
    let fixed = to_text(&build(&config, &mut nodes, Classes::all(), true));
    assert!(fixed.starts_with(
        "entity: [link_suffix] link [signal](./signal) is missing the .md suffix (fixed)\n"
    ));
}

#[test]
fn a_shared_stem_alone_is_no_duplicate() {
    let config = config("t", &["exist", "existence", "well-being", "well-beings"]);
    let mut nodes = vec![
        file("exist", &node("Exist", "To be actual in some way.")),
        file("existence", &node("Existence", "Everything there ever was.")),
        file("well-being", &node("A", "Same words here.")),
        file("well-beings", &node("B", "Same words here.")),
    ];
    let report = build(&config, &mut nodes, Classes::all(), false);
    assert!(report.findings.is_empty(), "{:?}", report.findings);
}

fn words(n: usize, from: usize) -> Vec<String> {
    (0..n).map(|i| format!("word{}", from + i)).collect()
}

/// The similarity is the quotient of the counts as a double, to two places.
#[test]
fn similarity_reads_as_the_quotient_to_two_places() {
    for total in 1..140usize {
        for both in 0..=total {
            let a = words(both, 0);
            let b = words(total, 0);
            let score = both as f64 / total as f64;
            let found = near_duplicate("signal", "signals", &a, &b);
            if score >= 0.25 {
                let f = found.unwrap();
                assert_eq!(
                    f.message,
                    format!(
                        "`signal` and `signals` look like the same term (definition similarity {score:.2})"
                    ),
                    "{both} of {total}"
                );
            } else {
                assert!(found.is_none(), "{both} of {total}");
            }
        }
    }
    assert!(near_duplicate("signal", "signals", &vec![], &vec![]).is_none());
    assert!(near_duplicate("signal", "story", &words(3, 0), &words(3, 0)).is_none());
    // Words on either side only count towards the whole.
    let f = near_duplicate("signal", "signals", &words(4, 0), &words(4, 2)).unwrap();
    assert!(f.message.ends_with("(definition similarity 0.33)"));
}

#[test]
fn words_are_runs_of_letters_and_digits() {
    assert_eq!(
        words_in("information that, moves—that 4x4x4; é éé ab"),
        ["4x4x4", "information", "moves", "that", "éé"]
    );
    assert!(words_in("").is_empty());
}

#[test]
fn upper_case_does_not_part_words() {
    let config = config("t", &["signal", "signals"]);
    let mut nodes = vec![
        file("signal", &node("Signal", "INFORMATION THAT MOVES.")),
        file("signals", &node("Signals", "Information that moves.")),
    ];
    let report = build(&config, &mut nodes, Classes::all(), false);
    assert_eq!(report.findings.len(), 1);
    assert!(report.findings[0].message.ends_with("(definition similarity 1.00)"));
}

#[test]
fn waivers_over_a_report_change_its_counts() {
    let (config, mut nodes) = setup();
    let report = build(&config, &mut nodes, Classes::all(), false);
    let errors = report.summary.errors;
    let total = report.findings.len();
    let waiver = |term: &str, check: &str| Waiver {
        term: term.to_string(),
        check: check.to_string(),
        source: None,
        reason: "r".to_string(),
        decided_on: "2026-01-01".to_string(),
    };
    let after = accept(
        report,
        &vec![waiver("ghost", "toc"), waiver("nobody", "toc")],
    );
    assert_eq!(after.summary.errors, errors - 1);
    assert_eq!(after.findings.len(), total + 1);
    assert_eq!(after.findings.last().unwrap().check, "stale_waiver");
    assert!(!after.clean);
}

#[test]
fn stems_are_counted_in_characters() {
    assert!(stems("été").is_empty());
    assert_eq!(stems("étéa"), ["étéa"]);
    assert!(stems("été-s").contains(&"été-".to_string()));
}
