use existence::commands::audit::Finding;
use existence::commands::source_check::fixes::pin_text;
use existence::commands::source_check::search::find_pins;
use existence::commands::source_check::snapshots::{
    candidate_order, raw_snapshot_url, snapshot_date, PIN_FETCH_BUDGET,
};
use existence::commands::source_check::urls::{clip, host_of, percent_encode};
use existence::commands::source_check::web::{
    request_url, wayback_lookup, Fetch, Request, Snapshot, SourceOptions, Stamps, Web,
};
use existence::commands::source_check::{
    check, html_to_text, match_quote, normalise, rfc3339_from_unix, rfc3339_now,
};
use existence::commands::sources::Lock;
use existence::markdown::NodeFile;

#[test]
fn text_normalisation_and_quote_matching() {
    let html = "<html><head><style>p{}</style><script>x()</script></head><body><h1>Scope</h1><p>The breadth, depth &amp; reach of a subject; a&nbsp;domain.</p></body></html>";
    assert_eq!(
        html_to_text(html),
        "Scope The breadth, depth & reach of a subject; a domain."
    );
    let page = normalise(&html_to_text(html));
    assert_eq!(
        match_quote(&page, "The breadth, depth & reach of a subject; a domain."),
        "present"
    );
    assert_eq!(
        match_quote(
            &page,
            "The breadth, depth and reach of a subject; a domain."
        ),
        "moved"
    );
    assert_eq!(
        match_quote(&page, "Something else entirely, about focus."),
        "missing"
    );
    assert_eq!(match_quote(&page, ""), "present");
}

/// A citation marker inside the sentence, rendered as a reference superscript
/// or copied into the quote as `[1]`, is not part of the passage: a quote that
/// is otherwise verbatim still counts as present.
#[test]
fn citation_markers_do_not_hide_a_verbatim_passage() {
    let html = r##"<p>Technology (from Greek <i>techne</i>, "art"; and -logia<sup id="cite_ref-1" class="reference"><a href="#cite_note-1">[1]</a></sup>) is the collection of tools used by humans.<sup class="noprint Inline-Template">[<i>citation needed</i>]</sup> It occurs in eukaryotes.[2][3] Prokaryotes reproduce asexually.[note 4][a]</p>"##;
    let page = normalise(&html_to_text(html));
    assert_eq!(
        page,
        "technology from greek techne art and logia is the collection of tools used by humans it occurs in eukaryotes prokaryotes reproduce asexually"
    );
    assert_eq!(
        match_quote(
            &page,
            r#"Technology (from Greek techne, "art"; and -logia) is the collection of tools used by humans."#
        ),
        "present"
    );
    assert_eq!(
        match_quote(
            &page,
            "It occurs in eukaryotes.[1][2] Prokaryotes reproduce asexually."
        ),
        "present"
    );
    // A bracketed year or a long bracketed phrase is text, not a marker.
    assert_eq!(
        normalise("Born [1964] in [the same town]"),
        "born 1964 in the same town"
    );
}

#[test]
fn rfc3339_dates() {
    assert_eq!(rfc3339_from_unix(0), "1970-01-01T00:00:00Z");
    assert_eq!(rfc3339_from_unix(951_782_400), "2000-02-29T00:00:00Z");
    assert_eq!(rfc3339_from_unix(1_788_998_400), "2026-09-10T00:00:00Z");
}

#[test]
fn times_before_the_epoch_and_within_a_day() {
    assert_eq!(rfc3339_from_unix(-1), "1969-12-31T23:59:59Z");
    assert_eq!(rfc3339_from_unix(86_399), "1970-01-01T23:59:59Z");
    let now = rfc3339_now();
    assert_eq!(now.len(), 20);
    assert!(now.ends_with('Z') && now.as_str() > "2024-01-01T00:00:00Z");
}

const BASE: &str = "http://127.0.0.1:8080";

fn ok(body: &str) -> Fetch {
    Fetch::Response { status: 200, body: body.to_string() }
}

/// A web in memory: `/live` carries the quote, `/changed` a near-miss, `/gone`
/// is 404, `/wayback/available` answers the availability API, and nothing
/// listens on `127.0.0.1:1`.
fn answer(url: &str) -> Fetch {
    let path = match url.strip_prefix(BASE) {
        Some(p) => p,
        None => return Fetch::Unreachable("connection refused".to_string()),
    };
    let head = r#"["urlkey","timestamp","original","mimetype","statuscode","digest","length"]"#;
    if path == "/adrift" {
        // Drifted from its quote, and no snapshot carries it.
        ok("<p>A sentence that has since been lightly reworded here.</p>")
    } else if path == "/lostquote" {
        ok("<p>Nothing of the passage survives here.</p>")
    } else if path.starts_with("/archive/") && path.ends_with("/relic") {
        ok("<p>The relic, as it read before the host went away.</p>")
    } else if path == "/live" {
        ok("<p>Anything in Existence that can be distinguished from anything else.</p>")
    } else if path == "/drifted" {
        ok("<p>A page rewritten since it was quoted.</p>")
    } else if path.starts_with("/cdx?") && path.contains("eras") {
        // Six snapshots around 2015 (one carries the first sentence) and one
        // in 2018 (carries the second).
        let rows: Vec<String> = [
            "20141001", "20141101", "20141201", "20150101", "20150201", "20150301", "20180101",
        ]
        .iter()
        .map(|ts| format!(r#"["k","{ts}000000","{BASE}/eras","text/html","200","{ts}","1"]"#))
        .collect();
        ok(&format!("[{head},{}]", rows.join(",")))
    } else if path.starts_with("/cdx?") {
        ok(&format!(
            r#"[{head},["k","20150201000000","{BASE}/drifted","text/html","200","a","1"],["k","20150301000000","{BASE}/drifted","text/html","200","b","1"],["k","20140101000000","{BASE}/drifted","text/html","200","c","1"]]"#
        ))
    } else if path == "/eras" {
        ok("<p>Rewritten twice since it was quoted.</p>")
    } else if path.starts_with("/archive/20150201000000id_/") && path.ends_with("/eras") {
        ok("<p>First sentence, from the old page.</p>")
    } else if path.starts_with("/archive/20180101000000id_/") && path.ends_with("/eras") {
        ok("<p>Second sentence, added later.</p>")
    } else if path.starts_with("/archive/") && path.ends_with("/eras") {
        ok("<p>Filler that carries neither sentence.</p>")
    } else if path.starts_with("/archive/20150201000000id_/") {
        ok("<p>Closest in time, but the sentence is not here.</p>")
    } else if path.starts_with("/archive/20150301000000id_/") {
        ok("<p>Old page: Anything in Existence that can be distinguished from anything else.</p>")
    } else if path == "/changed" {
        ok("<p>Anything in Existence which can be distinguished from anything else.</p>")
    } else if path.starts_with("/wayback/available") {
        // The relic's snapshot is one that is served, so an unreachable host
        // can be offered a working pin.
        let (snap, ts) = if path.contains("relic") {
            (
                format!("{BASE}/archive/20150301000000/http://127.0.0.1:1/relic"),
                "20150301000000",
            )
        } else {
            (
                format!("{BASE}/archive/20260101000000/gone"),
                "20260101000000",
            )
        };
        ok(&format!(
            r#"{{"archived_snapshots":{{"closest":{{"available":true,"url":"{snap}","timestamp":"{ts}"}}}}}}"#
        ))
    } else {
        Fetch::Response { status: 404, body: "gone".to_string() }
    }
}

fn node(title: &str, url: &str, quote: &str) -> String {
    format!(
        "# {title}\n\n## Ontology\n\nx\n\n## Axiology\n\nx\n\n## Epistemology\n\n<a href=\"{url}\" target=\"_blank\">{title} (source)</a>\n\n> {quote}\n"
    )
}

fn file(term: &str, content: String) -> NodeFile {
    NodeFile { term: term.to_string(), content }
}

fn sorted(mut nodes: Vec<NodeFile>) -> Vec<NodeFile> {
    nodes.sort_by(|a, b| a.term.cmp(&b.term));
    nodes
}

fn setup(more: Vec<NodeFile>) -> Vec<NodeFile> {
    let quote = "Anything in Existence that can be distinguished from anything else.";
    let mut nodes = vec![
        file("entity", node("Entity", &format!("{BASE}/live"), quote)),
        file("being", node("Being", &format!("{BASE}/changed"), quote)),
        file(
            "soul",
            node("Soul", &format!("{BASE}/gone"), "Whatever it said."),
        ),
        // Two URLs on a host with nothing listening: skipped after one attempt.
        file(
            "ghost",
            "# Ghost\n\n## Ontology\n\nx\n\n## Axiology\n\nx\n\n## Epistemology\n\n<a href=\"http://127.0.0.1:1/a\">a</a>\n\n> q\n\n<a href=\"http://127.0.0.1:1/b\">b</a>\n\n> q\n".to_string(),
        ),
    ];
    nodes.extend(more);
    sorted(nodes)
}

fn opts() -> SourceOptions {
    SourceOptions {
        lock: "audit/sources.lock.json".to_string(),
        rate_ms: 10,
        wayback: format!("{BASE}/wayback/available"),
        cdx: format!("{BASE}/cdx"),
        archive_web: format!("{BASE}/archive"),
        archive_around: "20150101".to_string(),
        timeout_ms: 5_000,
    }
}

struct Done {
    lock: Lock,
    findings: Vec<Finding>,
    log: Vec<String>,
}

/// The whole pass: what it asks for is fetched until it asks for nothing.
fn run(nodes: &mut Vec<NodeFile>, existing: Option<&Lock>, fix: bool) -> Done {
    let mut web = Web::new();
    let mut log = Vec::new();
    let options = opts();
    loop {
        match check(nodes, existing, &options, "2026-01-01T00:00:00Z", &web, fix) {
            Ok(done) => {
                return Done { lock: done.lock, findings: done.findings, log };
            }
            Err(request) => {
                let url = request_url(&options, &request);
                let fetch = answer(&url);
                log.push(url.strip_prefix(BASE).unwrap_or(&url).to_string());
                web.record(&options, &request, &fetch);
                assert!(log.len() < 200);
            }
        }
    }
}

fn content<'a>(nodes: &'a [NodeFile], term: &str) -> &'a str {
    &nodes.iter().find(|n| n.term == term).unwrap().content
}

#[test]
fn fix_pins_a_verified_snapshot_beside_a_drifted_quote() {
    let quote = "Anything in Existence that can be distinguished from anything else.";
    let mut nodes = setup(vec![file(
        "mind",
        node("Mind", &format!("{BASE}/drifted"), quote),
    )]);
    let done = run(&mut nodes, None, true);
    let pinned: Vec<&Finding> = done
        .findings
        .iter()
        .filter(|f| f.check == "quote_missing" && f.term == "mind")
        .collect();
    assert_eq!(pinned.len(), 1, "{:?}", done.findings);
    let pin = format!("{BASE}/archive/20150301000000/{BASE}/drifted");
    assert_eq!(
        pinned[0].fix.as_deref(),
        Some(format!("pin the archived copy {pin} beside the link").as_str())
    );
    assert!(pinned[0].fixed);
    let mind = content(&nodes, "mind").to_string();
    assert!(
        mind.contains(&format!(
            "<a href=\"{BASE}/drifted\" target=\"_blank\">Mind (source)</a> <a href=\"{pin}\" target=\"_blank\">(archived 2015-03-01)</a>\n"
        )),
        "{mind}"
    );
    // The closest snapshot lacked the sentence and was skipped; the farthest
    // was never needed.
    assert!(done
        .log
        .iter()
        .any(|u| u.starts_with("/archive/20150201000000id_/")));
    assert!(!done
        .log
        .iter()
        .any(|u| u.starts_with("/archive/20140101000000id_/")));
    let url = format!("{BASE}/drifted");
    let entry = done.lock.get(&url).unwrap();
    assert_eq!(entry.archives, [pin.clone()]);
    assert_eq!(entry.quotes.get("mind").unwrap(), "archived");

    // Second run: the pin in the node is read back, the snapshot is checked
    // instead of searched for, and nothing is reported.
    let again = run(&mut nodes, Some(&done.lock), false);
    assert!(
        again.findings.iter().all(|f| f.term != "mind"),
        "{:?}",
        again.findings
    );
    assert!(!again.log.iter().any(|u| u.starts_with("/cdx")));
    assert!(again
        .log
        .iter()
        .any(|u| u.starts_with("/archive/20150301000000id_/")));
    assert_eq!(mind, content(&nodes, "mind"), "the pin is written once");
    assert_eq!(
        snapshot_date("http://web.archive.org/web/20150623010707/http://a.org/x").as_deref(),
        Some("2015-06-23")
    );
    assert_eq!(
        raw_snapshot_url("https://web.archive.org/web/20150623010707/http://a.org/x"),
        "https://web.archive.org/web/20150623010707id_/http://a.org/x"
    );
}

/// Quotes taken from a page in different years need one pin per year: each
/// quote is verified on its own against the live page or any pin, the nearest
/// window is tried first, the yearly sweep finds the rest, and each node's
/// line gets only the pins its own quotes need.
#[test]
fn fix_pins_one_snapshot_per_era_and_only_the_pins_each_node_needs() {
    let first = "First sentence, from the old page.";
    let second = "Second sentence, added later.";
    let url = format!("{BASE}/eras");
    let mut nodes = setup(vec![
        file(
            "eras",
            format!(
                "# Eras\n\n## Ontology\n\nx\n\n## Axiology\n\nx\n\n## Epistemology\n\n<a href=\"{url}\" target=\"_blank\">Eras (source)</a>\n\n> {first}\n\n> {second}\n"
            ),
        ),
        file("accord", node("Accord", &url, second)),
    ]);
    let done = run(&mut nodes, None, true);
    let pin_2015 = format!("{BASE}/archive/20150201000000/{url}");
    let pin_2018 = format!("{BASE}/archive/20180101000000/{url}");
    let pinned: Vec<&Finding> = done
        .findings
        .iter()
        .filter(|f| f.check == "quote_missing" && f.fix.is_some())
        .collect();
    assert_eq!(pinned.len(), 2, "{:?}", done.findings);
    assert!(pinned.iter().all(|f| f.fixed), "{pinned:?}");
    assert!(
        done.findings
            .iter()
            .all(|f| f.check != "quote_missing" || f.fix.is_some()),
        "every quote was found in some snapshot: {:?}",
        done.findings
    );
    let eras = content(&nodes, "eras").to_string();
    assert!(
        eras.contains(&format!(
            "<a href=\"{url}\" target=\"_blank\">Eras (source)</a> <a href=\"{pin_2015}\" target=\"_blank\">(archived 2015-02-01)</a> <a href=\"{pin_2018}\" target=\"_blank\">(archived 2018-01-01)</a>\n"
        )),
        "{eras}"
    );
    let accord = content(&nodes, "accord");
    assert!(
        accord.contains(&format!("</a> <a href=\"{pin_2018}\"")),
        "{accord}"
    );
    assert!(
        !accord.contains(&pin_2015),
        "a pin its quotes do not need: {accord}"
    );
    assert_eq!(
        done.log
            .iter()
            .filter(|u| u.starts_with("/cdx?") && u.contains("eras"))
            .count(),
        1,
        "one CDX query per page per run"
    );
    assert_eq!(
        done.log
            .iter()
            .filter(|u| u.starts_with("/archive/20180101000000id_/"))
            .count(),
        1,
        "each snapshot is fetched once per run"
    );
    let entry = done.lock.get(&url).unwrap();
    assert_eq!(entry.quotes.get("eras").unwrap(), "archived");
    assert_eq!(entry.quotes.get("accord").unwrap(), "archived");
    assert!(entry.archives.contains(&pin_2015) && entry.archives.contains(&pin_2018));

    // Second run: both pins are read back from the nodes, no search.
    let again = run(&mut nodes, Some(&done.lock), false);
    assert!(
        again
            .findings
            .iter()
            .all(|f| f.term != "eras" && f.term != "accord"),
        "{:?}",
        again.findings
    );
    assert!(!again.log.iter().any(|u| u.starts_with("/cdx")));
    assert_eq!(eras, content(&nodes, "eras"));

    // The order snapshots are tried: the nearest window, then one per year.
    let mut rows: Vec<Vec<String>> = vec![vec!["urlkey".to_string(), "timestamp".to_string()]];
    for ts in [
        "20141001", "20141101", "20141201", "20150101", "20150201", "20150301", "20180101",
        "20180601", "20120301",
    ] {
        rows.push(vec!["k".to_string(), format!("{ts}000000")]);
    }
    assert_eq!(
        candidate_order(&rows, "20150101"),
        [
            "20150101000000",
            "20150201000000",
            "20150301000000",
            "20141201000000",
            "20141101000000",
            "20141001000000",
            "20120301000000",
            "20180101000000"
        ]
    );
}

#[test]
fn source_pass_records_status_quotes_archive_and_skips_unreachable_hosts() {
    let mut nodes = setup(vec![]);
    let done = run(&mut nodes, None, false);
    let live = done.lock.get(&format!("{BASE}/live")).unwrap();
    assert_eq!(live.status, Some(200));
    assert_eq!(live.quotes.get("entity").unwrap(), "present");
    assert!(live.fetched_at.as_deref().unwrap().ends_with('Z'));
    assert_eq!(live.content_sha256.as_deref().map(str::len), Some(64));
    // A drifted quote the archive can anchor is recorded as archived, not left
    // as `moved` with nothing anyone could do about it.
    let changed = done.lock.get(&format!("{BASE}/changed")).unwrap();
    assert_eq!(changed.quotes.get("being").unwrap(), "archived");
    let gone = done.lock.get(&format!("{BASE}/gone")).unwrap();
    assert_eq!(gone.status, Some(404));
    assert_eq!(
        gone.archives,
        [format!("{BASE}/archive/20260101000000/gone")]
    );
    assert_eq!(gone.quotes.get("soul").unwrap(), "unchecked");
    let dead_a = done.lock.get("http://127.0.0.1:1/a").unwrap();
    assert_eq!((dead_a.status, dead_a.fetched_at.as_deref()), (None, None));

    let by_check = |c: &str| -> Vec<&Finding> {
        done.findings.iter().filter(|f| f.check == c).collect()
    };
    assert_eq!(by_check("quote_missing").len(), 0);
    let moved = by_check("quote_moved");
    assert_eq!(moved.len(), 1);
    assert_eq!(
        (moved[0].term.as_str(), moved[0].severity.as_str()),
        ("being", "warning")
    );
    // It now carries a remedy: without one it could only be re-reported.
    assert!(
        moved[0]
            .fix
            .as_deref()
            .is_some_and(|f| f.contains("/archive/20150301000000/")),
        "{moved:?}"
    );
    let dead = by_check("dead_link");
    assert_eq!(dead.len(), 1);
    assert_eq!(dead[0].term, "soul");
    assert_eq!(dead[0].severity, "error");
    assert!(dead[0].message.contains("HTTP 404"));
    assert!(dead[0]
        .fix
        .as_deref()
        .unwrap()
        .contains("/archive/20260101000000/gone"));
    assert!(!dead[0].fixed);
    // Every source on the dead host is reported, not just the first: each one
    // has its own pin to look for, and the host is fetched only once.
    let skipped = by_check("unreachable_host");
    assert_eq!(skipped.len(), 2, "{skipped:?}");
    assert!(skipped.iter().all(|f| f.term == "ghost"));
    assert!(skipped.iter().all(|f| f.message.contains("127.0.0.1:1")));

    // The archive was asked about the dead link and about each source on the
    // unreachable host; the host itself was attempted once.
    assert_eq!(
        done.log
            .iter()
            .filter(|u| u.starts_with("/wayback"))
            .count(),
        3
    );
    assert!(done.log.iter().any(|u| u.contains("gone")));
    assert_eq!(
        done.log
            .iter()
            .filter(|u| *u == "http://127.0.0.1:1/a" || *u == "http://127.0.0.1:1/b")
            .count(),
        1
    );
}

/// A node with a source anchor and one pin already beside it.
fn pinned_node(title: &str, url: &str, pin: &str, quote: &str) -> String {
    format!(
        "# {title}\n\n## Ontology\n\nx\n\n## Axiology\n\nx\n\n## Epistemology\n\n<a href=\"{url}\" target=\"_blank\">{title} (source)</a> <a href=\"{pin}\" target=\"_blank\">(archived)</a>\n\n> {quote}\n"
    )
}

const DRIFTED: &str = "Anything in Existence that can be distinguished from anything else.";

/// A passage the live page has drifted from is not a finding when a pin beside
/// the link still carries it word for word: the pin is the citation of record,
/// so nothing has been lost and there is nothing to report.
#[test]
fn a_drifted_quote_its_own_pin_carries_verbatim_is_not_reported() {
    let url = format!("{BASE}/changed");
    let pin = format!("{BASE}/archive/20150301000000/{url}");
    let mut nodes = setup(vec![file(
        "anchor",
        pinned_node("Anchor", &url, &pin, DRIFTED),
    )]);
    let before = content(&nodes, "anchor").to_string();
    let done = run(&mut nodes, None, true);
    assert!(
        done.findings.iter().all(|f| f.term != "anchor"),
        "{:?}",
        done.findings
    );
    let entry = done.lock.get(&url).unwrap();
    assert_eq!(entry.quotes.get("anchor").unwrap(), "archived");
    assert_eq!(
        before,
        content(&nodes, "anchor"),
        "the pin already there answered; nothing was rewritten"
    );
}

/// The resolution path of a drifted quote: search the nearest snapshots for
/// one that carries the passage verbatim, offer it as the fix, and write it.
#[test]
fn fix_pins_a_snapshot_that_carries_a_drifted_quote_verbatim() {
    let url = format!("{BASE}/changed");
    let pin = format!("{BASE}/archive/20150301000000/{url}");
    let mut nodes = setup(vec![]);
    let done = run(&mut nodes, None, true);
    let moved: Vec<&Finding> = done
        .findings
        .iter()
        .filter(|f| f.check == "quote_moved" && f.term == "being")
        .collect();
    assert_eq!(moved.len(), 1, "{:?}", done.findings);
    assert_eq!(
        moved[0].fix.as_deref(),
        Some(format!("pin the archived copy {pin} beside the link").as_str())
    );
    assert!(moved[0].fixed);
    let being = content(&nodes, "being").to_string();
    assert!(being.contains(&format!("<a href=\"{pin}\"")), "{being}");

    // Second run: the pin is read back and the warning is gone for good.
    let again = run(&mut nodes, Some(&done.lock), false);
    assert!(
        again.findings.iter().all(|f| f.term != "being"),
        "{:?}",
        again.findings
    );
    assert_eq!(being, content(&nodes, "being"), "the pin is written once");
}

/// When no snapshot carries the passage verbatim the warning stands, with no
/// fix: there is genuinely nothing to apply.
#[test]
fn a_drifted_quote_no_snapshot_carries_is_reported_without_a_fix() {
    let mut nodes = setup(vec![file(
        "adrift",
        node(
            "Adrift",
            &format!("{BASE}/adrift"),
            "A sentence that has since been lightly reworded there.",
        ),
    )]);
    let done = run(&mut nodes, None, true);
    let mine: Vec<&Finding> = done.findings.iter().filter(|f| f.term == "adrift").collect();
    assert_eq!(mine.len(), 1, "{:?}", done.findings);
    assert_eq!(mine[0].check, "quote_moved");
    assert_eq!(mine[0].severity, "warning");
    assert_eq!(mine[0].fix, None);
    assert!(
        mine[0].message.contains("no snapshot carries it verbatim"),
        "{:?}",
        mine[0]
    );
}

/// A pin whose own fetch failed was never read, so it cannot be reported as a
/// pin that does not carry the passage.
#[test]
fn a_pin_that_could_not_be_fetched_is_not_an_absent_quote() {
    let url = format!("{BASE}/lostquote");
    let dead_pin = format!("http://127.0.0.1:1/archive/20150101000000/{url}");
    let mut nodes = setup(vec![file(
        "vault",
        pinned_node(
            "Vault",
            &url,
            &dead_pin,
            "A passage that vanished from the page.",
        ),
    )]);
    let done = run(&mut nodes, None, false);
    let mine: Vec<&Finding> = done.findings.iter().filter(|f| f.term == "vault").collect();
    assert_eq!(mine.len(), 1, "{:?}", done.findings);
    assert_eq!(
        (mine[0].check.as_str(), mine[0].severity.as_str()),
        ("pin_unreachable", "warning"),
        "{:?}",
        mine[0]
    );
    assert!(mine[0].message.contains("127.0.0.1:1"), "{:?}", mine[0]);
    assert!(
        done.findings
            .iter()
            .all(|f| f.check != "quote_missing" || f.term != "vault"),
        "{:?}",
        done.findings
    );
}

/// An unreachable source host says nothing about the archive host, so the
/// archive is still searched and the pin still offered.
#[test]
fn an_unreachable_host_is_offered_and_keeps_its_archived_copy() {
    let mut nodes = setup(vec![file(
        "relic",
        node("Relic", "http://127.0.0.1:1/relic", "Whatever it said."),
    )]);
    let pin = format!("{BASE}/archive/20150301000000/http://127.0.0.1:1/relic");
    let done = run(&mut nodes, None, true);
    let mine: Vec<&Finding> = done.findings.iter().filter(|f| f.term == "relic").collect();
    assert_eq!(mine.len(), 1, "{:?}", done.findings);
    assert_eq!(mine[0].check, "unreachable_host");
    assert_eq!(
        mine[0].fix.as_deref(),
        Some(format!("pin the archived copy {pin} beside the link").as_str())
    );
    assert!(mine[0].fixed);
    let relic = content(&nodes, "relic");
    assert!(relic.contains(&format!("<a href=\"{pin}\"")), "{relic}");

    // Second run: the pin answers for the citation and the host's
    // unreachability is no longer worth reporting.
    let again = run(&mut nodes, Some(&done.lock), false);
    assert!(
        again.findings.iter().all(|f| f.term != "relic"),
        "{:?}",
        again.findings
    );
}

#[test]
fn fix_swaps_the_dead_link_for_the_archived_copy() {
    let mut nodes = setup(vec![]);
    let done = run(&mut nodes, None, true);
    let dead: Vec<&Finding> = done
        .findings
        .iter()
        .filter(|f| f.check == "dead_link")
        .collect();
    assert!(dead[0].fixed);
    let soul = content(&nodes, "soul");
    assert!(soul.contains(&format!("href=\"{BASE}/archive/20260101000000/gone\"")));
    assert!(!soul.contains(&format!("href=\"{BASE}/gone\"")));
    // A live link is untouched.
    let entity = content(&nodes, "entity");
    assert!(entity.contains(&format!("href=\"{BASE}/live\"")));
}

/// Everything is asked for once, however often the pass is begun again.
#[test]
fn nothing_is_fetched_twice() {
    let mut nodes = setup(vec![]);
    let done = run(&mut nodes, None, false);
    let mut log = done.log.clone();
    log.sort();
    log.dedup();
    assert_eq!(log.len(), done.log.len());
}

#[test]
fn requests_have_urls() {
    let options = opts();
    assert_eq!(
        request_url(&options, &Request::Lookup("http://a.org/x y".to_string())),
        format!("{BASE}/wayback/available?url=http%3A%2F%2Fa.org%2Fx%20y")
    );
    assert_eq!(
        request_url(&options, &Request::Index("http://a.org/é".to_string())),
        format!("{BASE}/cdx?url=http%3A%2F%2Fa.org%2F%C3%A9&output=json&filter=statuscode:200&collapse=timestamp:6&limit=400")
    );
    assert_eq!(percent_encode("aZ0-_.~"), "aZ0-_.~");
    assert_eq!(host_of("https://a.org:8/x?y#z").as_deref(), Some("a.org:8"));
    assert_eq!(host_of("no url"), None);
    assert_eq!(clip(&"é".repeat(81)), format!("{}…", "é".repeat(80)));
    assert_eq!(clip("short"), "short");
}

#[test]
fn only_an_available_snapshot_is_taken() {
    let yes = r#"{"archived_snapshots":{"closest":{"available":true,"url":"u"}}}"#;
    let no = r#"{"archived_snapshots":{"closest":{"available":false,"url":"u"}}}"#;
    assert_eq!(wayback_lookup(&ok(yes)).as_deref(), Some("u"));
    assert_eq!(wayback_lookup(&ok(no)), None);
    assert_eq!(wayback_lookup(&ok("{}")), None);
    assert_eq!(wayback_lookup(&ok("not json")), None);
    let gone = Fetch::Response { status: 404, body: yes.to_string() };
    assert_eq!(wayback_lookup(&gone), None);
    assert_eq!(wayback_lookup(&Fetch::Unreachable("x".to_string())), None);
}

#[test]
fn options_default_to_the_archive() {
    let o = SourceOptions::default();
    assert_eq!(o.lock, "audit/sources.lock.json");
    assert_eq!(o.rate_ms, 1_000);
    assert_eq!(o.wayback, "https://archive.org/wayback/available");
    assert_eq!(o.cdx, "https://web.archive.org/cdx/search/cdx");
    assert_eq!(o.archive_web, "https://web.archive.org/web");
    assert_eq!(o.archive_around, "20150101");
    assert_eq!(o.timeout_ms, 20_000);
}

const CITED: &str = "http://host/page";

fn snapshot(i: usize) -> String {
    format!("{}/{}0101000000/{CITED}", opts().archive_web, 2000 + i)
}

/// An archive with `n` snapshots, of which those given hold a text.
fn archive(n: usize, held: &[(usize, &str)]) -> Web {
    let mut web = Web::new();
    let list = (0..n).map(|i| format!("{}0101000000", 2000 + i)).collect();
    web.stamps.insert(CITED.to_string(), Stamps { list });
    for i in 0..n {
        let page = held.iter().find(|h| h.0 == i).map(|h| h.1.to_string());
        web.pages.insert(
            raw_snapshot_url(&snapshot(i)),
            Snapshot {
                page,
                failure: None,
            },
        );
    }
    web
}

fn pinned(web: &Web, lost: &[&str]) -> Vec<String> {
    let lost: Vec<String> = lost.iter().map(|q| q.to_string()).collect();
    let found = find_pins(web, &opts(), CITED, &lost).unwrap();
    found.into_iter().map(|(pin, _)| pin).collect()
}

#[test]
fn a_snapshot_with_every_passage_is_the_only_pin() {
    let web = archive(8, &[(1, "alpha"), (3, "alpha beta"), (7, "beta")]);
    assert_eq!(pinned(&web, &["alpha", "beta"]), [snapshot(3)]);
}

#[test]
fn partial_copies_are_pinned_until_nothing_more_is_found() {
    let web = archive(8, &[(1, "alpha"), (4, "alpha gamma"), (7, "beta")]);
    assert_eq!(
        pinned(&web, &["alpha", "beta", "gamma"]),
        [snapshot(4), snapshot(7)]
    );
    assert_eq!(pinned(&web, &["delta"]), Vec::<String>::new());
}

#[test]
fn a_search_fetches_no_more_than_its_budget() {
    let mut web = archive(PIN_FETCH_BUDGET, &[]);
    let stamps = (0..30).map(|i| format!("{}0101000000", 2000 + i)).collect();
    web.stamps
        .insert(CITED.to_string(), Stamps { list: stamps });
    assert_eq!(pinned(&web, &["alpha"]), Vec::<String>::new());
    let unknown = Web::new();
    match find_pins(&unknown, &opts(), CITED, &vec!["alpha".to_string()]) {
        Err(Request::Index(url)) => assert_eq!(url, CITED),
        other => panic!("{other:?}"),
    }
}

#[test]
fn later_times_have_later_texts() {
    let times = [
        -62_167_219_200,
        -1,
        0,
        59,
        60,
        86_399,
        86_400,
        951_782_399,
        951_782_400,
        253_402_300_799,
    ];
    for pair in times.windows(2) {
        let (a, b) = (rfc3339_from_unix(pair[0]), rfc3339_from_unix(pair[1]));
        assert!(a < b, "{a} {b}");
        assert_eq!((a.len(), b.len()), (20, 20));
    }
    assert_eq!(rfc3339_from_unix(times[0]), "0000-01-01T00:00:00Z");
    assert_eq!(rfc3339_from_unix(times[9]), "9999-12-31T23:59:59Z");
}

#[test]
fn normalising_twice_is_normalising_once() {
    for text in ["", "  A -- b [1] C!", "x[note 2]y", "ALL caps 42.", "[citation needed]"] {
        let once = normalise(text);
        assert_eq!(normalise(&once), once);
        assert!(once
            .chars()
            .all(|c| c.is_ascii_lowercase() || c.is_ascii_digit() || c == ' '));
        assert_eq!(once.trim(), once);
        assert!(!once.contains("  "), "{once:?}");
    }
    assert_eq!(normalise("  A -- b [1] C!"), "a b c");
}

#[test]
fn pinning_twice_is_pinning_once() {
    let url = "https://x.org/p";
    let pins: Vec<String> = ["20140101000000", "20150101000000", "20160101000000"]
        .iter()
        .map(|ts| format!("https://web.archive.org/web/{ts}/{url}"))
        .collect();
    let text = format!(
        "<a href=\"{url}\">P</a> <a href=\"{}\" target=\"_blank\">(archived 2015-01-01)</a>, too\n\
         prose\n<a href=\"{url}\">P</a>",
        pins[1]
    );
    let (once, changed) = pin_text(&text, url, &pins);
    assert!(changed);
    assert_eq!(
        once,
        format!(
            "<a href=\"{url}\">P</a> <a href=\"{b}\" target=\"_blank\">(archived 2015-01-01)</a> \
             <a href=\"{a}\" target=\"_blank\">(archived 2014-01-01)</a> \
             <a href=\"{c}\" target=\"_blank\">(archived 2016-01-01)</a>, too\nprose\n\
             <a href=\"{url}\">P</a> <a href=\"{a}\" target=\"_blank\">(archived 2014-01-01)</a> \
             <a href=\"{b}\" target=\"_blank\">(archived 2015-01-01)</a> \
             <a href=\"{c}\" target=\"_blank\">(archived 2016-01-01)</a>",
            a = pins[0],
            b = pins[1],
            c = pins[2]
        )
    );
    assert_eq!(pin_text(&once, url, &pins), (once.clone(), false));
}
