use existence::commands::audit::Finding;
use existence::commands::waivers::{apply, ACCEPTED};
use existence::config::Waiver;

fn finding(term: &str, check: &str, severity: &str, message: &str) -> Finding {
    Finding {
        class: "sources".to_string(),
        check: check.to_string(),
        severity: severity.to_string(),
        term: term.to_string(),
        message: message.to_string(),
        fix: None,
        fixed: false,
    }
}

fn waiver(term: &str, check: &str, source: Option<&str>) -> Waiver {
    Waiver {
        term: term.to_string(),
        check: check.to_string(),
        source: source.map(str::to_string),
        reason: "the page is unrecoverable".to_string(),
        decided_on: "2026-09-20".to_string(),
    }
}

#[test]
fn a_matching_waiver_demotes_the_finding_and_carries_the_reason() {
    let mut findings = vec![finding(
        "god",
        "unreachable_host",
        "warning",
        "host theunboundedspirit.com is unreachable (too many redirects)",
    )];
    let stale = apply(&mut findings, &vec![waiver("god", "unreachable_host", None)]);
    assert_eq!(findings[0].severity, ACCEPTED);
    assert!(findings[0].message.contains("accepted 2026-09-20"));
    assert!(findings[0].message.contains("the page is unrecoverable"));
    // Still present: a decision the reader cannot see reads like a check
    // that stopped running.
    assert!(findings[0]
        .message
        .starts_with("host theunboundedspirit.com"));
    assert!(stale.is_empty());
}

#[test]
fn a_waiver_for_another_term_or_check_leaves_the_finding_alone() {
    let original = finding(
        "god",
        "unreachable_host",
        "warning",
        "host x is unreachable",
    );
    for w in [
        waiver("mind", "unreachable_host", None),
        waiver("god", "dead_link", None),
    ] {
        let mut findings = vec![original.clone()];
        let stale = apply(&mut findings, &vec![w]);
        assert_eq!(findings[0], original);
        assert_eq!(stale.len(), 1, "a waiver matching nothing is reported");
    }
}

#[test]
fn source_narrows_a_waiver_to_one_of_a_terms_citations() {
    let mut findings = vec![
        finding(
            "god",
            "dead_link",
            "error",
            "source http://gone.example/a returned HTTP 404",
        ),
        finding(
            "god",
            "dead_link",
            "error",
            "source http://other.example/b returned HTTP 404",
        ),
    ];
    let stale = apply(
        &mut findings,
        &vec![waiver("god", "dead_link", Some("gone.example"))],
    );
    assert_eq!(findings[0].severity, ACCEPTED);
    assert_eq!(
        findings[1].severity, "error",
        "the other citation is untouched"
    );
    assert!(stale.is_empty());
}

#[test]
fn an_unused_waiver_is_reported_rather_than_silently_doing_nothing() {
    let mut findings = vec![finding(
        "god",
        "dead_link",
        "error",
        "source x returned HTTP 404",
    )];
    let stale = apply(&mut findings, &vec![waiver("god", "unreachable_host", None)]);
    assert_eq!(stale.len(), 1);
    assert_eq!(stale[0].check, "stale_waiver");
    assert_eq!(stale[0].severity, "warning");
    assert_eq!(stale[0].term, "god");
    assert!(stale[0].message.contains("god / unreachable_host"));
    // The reason travels with the stale report so the reader can judge
    // whether to drop the entry without opening existence.toml.
    assert!(stale[0].message.contains("the page is unrecoverable"));
}

#[test]
fn an_unused_waiver_with_a_source_names_it() {
    let mut findings = Vec::new();
    let stale = apply(
        &mut findings,
        &vec![waiver("god", "dead_link", Some("gone.example"))],
    );
    assert!(stale[0].message.contains("god / dead_link (gone.example)"));
}

#[test]
fn two_waivers_matching_one_finding_do_not_stack_their_notes() {
    let mut findings = vec![finding(
        "god",
        "dead_link",
        "error",
        "source x returned HTTP 404",
    )];
    let stale = apply(
        &mut findings,
        &vec![
            waiver("god", "dead_link", None),
            waiver("god", "dead_link", None),
        ],
    );
    assert_eq!(findings[0].message.matches("accepted").count(), 1);
    // The second never applied, so it reports itself rather than passing
    // for a live decision.
    assert_eq!(stale.len(), 1);
}

#[test]
fn the_message_and_the_stale_report_read_as_written() {
    let mut findings = vec![finding("god", "dead_link", "error", "gone")];
    findings[0].fix = Some("replace it".to_string());
    let stale = apply(
        &mut findings,
        &vec![waiver("god", "dead_link", None), waiver("mind", "lint", None)],
    );
    assert_eq!(
        findings[0].message,
        "gone — accepted 2026-09-20: the page is unrecoverable"
    );
    // A waiver does not change what a fix applies.
    assert_eq!(findings[0].fix.as_deref(), Some("replace it"));
    assert_eq!(stale[0].class, "audit");
    assert_eq!(
        stale[0].message,
        "audit.waiver accepts mind / lint (the page is unrecoverable), but nothing raised it this run — it is either resolved or stale, so drop the entry"
    );
}
