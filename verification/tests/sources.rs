use existence::commands::sources::{
    archived_original, build, build_lock, countable, extract_sources, same_page, select, to_text,
    written_line, Lock, LockEntry, TermSources, DEFAULT_LOCK, UNCHECKED,
};
use existence::markdown::NodeFile;
use existence::table::Table;

const NODE: &str = r#"# Scope

## [Ontology](./ontology.md)

> A quoted lay definition with no source above it is not a quote.

Since the scope is wide, the resolution starts low. <a href="http://cosmicscale.appspot.com/index.html" target="_blank">
The Cosmic Scale</a> is a demonstration of scope.

## [Epistemology](./epistemology.md)

### [Cultural](./culture.md) Definition

<a href="http://en.wiktionary.org/wiki/scope" target="_blank">scope (wiktionary)</a>

> ### Noun

> The breadth, depth or reach of a subject; a domain.

>     (computing) The region of program source in which an identifier is meaningful.

> (slang) Shortened form of periscope.

<a href="https://www.youtube.com/watch?v=abc" target="_blank">A keynote</a>

Abstraction is:

* to take a distance from the physical world

> <a href="https://en.wikipedia.org/wiki/Scope" target="_blank">Wikipedia</a>: Scope is the extent of the area or subject matter.

> <a href="https://www.etymonline.com/word/scope" target="_blank">Etymonline</a>: from Italian scopo "aim, purpose".

### [Pattern](./pattern.md) Expression

Scope is a pattern.
"#;

fn file(term: &str, content: &str) -> NodeFile {
    NodeFile { term: term.to_string(), content: content.to_string() }
}

#[test]
fn extracts_both_shapes_and_ends_blocks_correctly() {
    let refs = extract_sources(NODE);
    let urls: Vec<&str> = refs.iter().map(|r| r.url.as_str()).collect();
    assert_eq!(
        urls,
        [
            "http://cosmicscale.appspot.com/index.html",
            "http://en.wiktionary.org/wiki/scope",
            "https://www.youtube.com/watch?v=abc",
            "https://en.wikipedia.org/wiki/Scope",
            "https://www.etymonline.com/word/scope",
        ]
    );
    // Mid-paragraph anchor with a wrapped label: label recovered, no quotes.
    assert_eq!(refs[0].label, "The Cosmic Scale");
    assert!(refs[0].quotes.is_empty());
    // Standalone: heading line dropped, indented sub-sense kept, blank
    // lines do not end the block.
    assert_eq!(refs[1].label, "scope (wiktionary)");
    assert_eq!(
        refs[1].quotes,
        [
            "The breadth, depth or reach of a subject; a domain.",
            "(computing) The region of program source in which an identifier is meaningful.",
            "(slang) Shortened form of periscope.",
        ]
    );
    // Anchor followed by prose and a list: no quotes.
    assert_eq!(refs[2].label, "A keynote");
    assert!(refs[2].quotes.is_empty());
    // Inline: passage after `</a>:`.
    assert_eq!(refs[3].label, "Wikipedia");
    assert_eq!(
        refs[3].quotes,
        ["Scope is the extent of the area or subject matter."]
    );
    assert_eq!(refs[4].quotes, ["from Italian scopo \"aim, purpose\"."]);
}

#[test]
fn an_archive_anchor_beside_its_source_pins_it_instead_of_being_a_source() {
    let refs = extract_sources(
        "# T\n\n<a href=\"http://x.org/a\" target=\"_blank\">A</a> <a href=\"https://web.archive.org/web/20150301000000/http://x.org/a\" target=\"_blank\">(archived 2015-03-01)</a>\n\n> kept\n\n> <a href=\"https://y.org/b\">B</a> <a href=\"http://127.0.0.1:9/archive/20150301000000id_/https://y.org/b\">(archived)</a>: inline passage\n\n<a href=\"https://web.archive.org/web/20100101000000/http://z.org/c\">C, a dead link already swapped</a>\n\n> c\n",
    );
    assert_eq!(refs.len(), 3, "{refs:?}");
    assert_eq!(refs[0].url, "http://x.org/a");
    assert_eq!(
        refs[0].archive().as_deref(),
        Some("https://web.archive.org/web/20150301000000/http://x.org/a")
    );
    assert_eq!(refs[0].quotes, vec!["kept"]);
    assert_eq!(refs[1].url, "https://y.org/b");
    assert!(refs[1].archive().is_some());
    assert_eq!(refs[1].quotes, vec!["inline passage"]);
    // With no live anchor before it, an archive URL is a source of its own.
    assert!(refs[2].url.starts_with("https://web.archive.org/"));
    assert!(refs[2].archive().is_none());
    assert_eq!(
        archived_original("https://web.archive.org/web/2015id_/http://x.org/a").as_deref(),
        Some("http://x.org/a")
    );
    assert_eq!(archived_original("http://x.org/a"), None);

    let all = vec![TermSources { term: "t".into(), sources: refs }];
    let lock = build_lock(&all, None);
    assert_eq!(lock.len(), 3);
    assert!(lock.get("http://x.org/a").unwrap().archive().is_some());
    assert!(lock.get("https://y.org/b").unwrap().archive().is_some());
}

#[test]
fn a_line_can_carry_more_than_one_pin() {
    let refs = extract_sources(
        "<a href=\"http://x.org/a\">A</a> <a href=\"https://web.archive.org/web/2015/http://x.org/a\">(1)</a> <a href=\"https://web.archive.org/web/2018/http://x.org/a\">(2)</a>\n",
    );
    assert_eq!(refs.len(), 1);
    assert_eq!(
        refs[0].archives,
        [
            "https://web.archive.org/web/2015/http://x.org/a",
            "https://web.archive.org/web/2018/http://x.org/a",
        ]
    );
}

#[test]
fn a_quote_before_any_anchor_is_ignored() {
    let refs = extract_sources("# T\n\n> orphan\n\n<a href=\"https://x.org/a\">A</a>\n\n> kept\n");
    assert_eq!(refs.len(), 1);
    assert_eq!(refs[0].quotes, ["kept"]);
}

fn setup() -> Vec<NodeFile> {
    vec![
        file(
            "bare",
            "# Bare\n\n## [Ontology](./ontology.md)\n\nNo sources.\n",
        ),
        file(
            "being",
            "# Being\n\n## [Epistemology](./epistemology.md)\n\n> <a href=\"https://en.wikipedia.org/wiki/Entity\" target=\"_blank\">Wikipedia</a>: cited inline.\n\n> <a href=\"https://en.wiktionary.org/wiki/being\" target=\"_blank\">Wiktionary</a>: existence.\n",
        ),
        file(
            "entity",
            "# Entity\n\n## [Ontology](./ontology.md)\n\nx\n\n## [Epistemology](./epistemology.md)\n\n<a href=\"https://en.wikipedia.org/wiki/Entity\" target=\"_blank\">Entity (Wikipedia)</a>\n\n> An entity is something that exists.\n\n<a href=\"https://en.wikipedia.org/wiki/Entity\" target=\"_blank\">again</a>\n\n> Second citation of the same page.\n",
        ),
    ]
}

#[test]
fn build_lists_terms_in_order_and_filters_by_term() {
    let all = build(&setup(), None).unwrap();
    let terms: Vec<&str> = all.iter().map(|t| t.term.as_str()).collect();
    assert_eq!(terms, ["bare", "being", "entity"]);
    assert_eq!(all[2].sources.len(), 2);
    assert_eq!(
        all[2].sources[1].quotes,
        ["Second citation of the same page."]
    );
    let one = build(&setup(), Some("being")).unwrap();
    assert_eq!(one.len(), 1);
    assert_eq!(one[0].sources.len(), 2);
    assert!(build(&setup(), Some("ghost"))
        .unwrap_err()
        .contains("not found"));
}

#[test]
fn lock_aggregates_by_url_and_round_trips() {
    let all = build(&setup(), None).unwrap();
    let lock = build_lock(&all, None);
    assert_eq!(lock.len(), 2);
    let entity = lock.get("https://en.wikipedia.org/wiki/Entity").unwrap();
    assert_eq!(entity.cited_by, ["being", "entity"]);
    assert_eq!(entity.fetched_at, None);
    assert_eq!(entity.status, None);
    assert_eq!(entity.quotes.get("being").unwrap(), UNCHECKED);
    assert_eq!(entity.quotes.get("entity").unwrap(), UNCHECKED);
    // Read back, the lock gives the same lock again.
    let again = build_lock(&all, Some(&lock));
    assert_eq!(again.len(), 2);
    for i in 0..again.len() {
        assert_eq!(again.key(i), lock.key(i));
        assert_eq!(again.value(i).cited_by, lock.value(i).cited_by);
        assert_eq!(again.value(i).status, lock.value(i).status);
        assert_eq!(again.value(i).archives, lock.value(i).archives);
        for k in 0..again.value(i).quotes.len() {
            assert_eq!(
                again.value(i).quotes.value(k),
                lock.value(i).quotes.value(k)
            );
        }
    }
}

fn quotes(pairs: &[(&str, &str)]) -> Table<String> {
    let mut t = Table::new();
    for (k, v) in pairs {
        t.insert(k.to_string(), v.to_string());
    }
    t
}

#[test]
fn rewriting_the_lock_keeps_fetch_results_and_drops_stale_entries() {
    let all = build(&setup(), None).unwrap();
    let mut existing: Lock = Table::new();
    existing.insert(
        "https://en.wikipedia.org/wiki/Entity".into(),
        LockEntry {
            cited_by: vec!["entity".into(), "gone".into()],
            fetched_at: Some("2026-09-11T00:00:00Z".into()),
            status: Some(200),
            content_sha256: Some("abc".into()),
            quotes: quotes(&[("entity", "present"), ("gone", "missing")]),
            archives: vec!["https://web.archive.org/web/2026/x".into()],
        },
    );
    existing.insert(
        "https://dead.example/".into(),
        LockEntry {
            cited_by: vec!["entity".into()],
            fetched_at: Some("2026-09-11T00:00:00Z".into()),
            status: Some(404),
            content_sha256: None,
            quotes: quotes(&[]),
            archives: vec![],
        },
    );
    let lock = build_lock(&all, Some(&existing));
    assert!(!lock.contains_key("https://dead.example/"));
    let entity = lock.get("https://en.wikipedia.org/wiki/Entity").unwrap();
    assert_eq!(entity.cited_by, ["being", "entity"]);
    assert_eq!(entity.fetched_at.as_deref(), Some("2026-09-11T00:00:00Z"));
    assert_eq!(entity.status, Some(200));
    assert_eq!(entity.content_sha256.as_deref(), Some("abc"));
    assert_eq!(
        entity.archive().as_deref(),
        Some("https://web.archive.org/web/2026/x")
    );
    assert_eq!(entity.quotes.get("entity").unwrap(), "present");
    assert_eq!(entity.quotes.get("being").unwrap(), UNCHECKED);
    assert!(!entity.quotes.contains_key("gone"));
}

#[test]
fn run_rejects_lock_with_a_term_and_writes_relative_to_the_ontology() {
    let err = select(&setup(), Some("entity"), true).unwrap_err();
    assert!(err.contains("--lock covers the whole ontology"));
    let all = select(&setup(), None, true).unwrap();
    let lock = build_lock(&all, None);
    assert!(countable(&all));
    assert_eq!(
        written_line(&all, &lock, DEFAULT_LOCK),
        "sources: 2 url(s) from 4 anchor(s) in 3 term(s) (4 quote(s)) written to audit/sources.lock.json"
    );
}

#[test]
fn text_and_json_shapes() {
    let all = build(&setup(), Some("being")).unwrap();
    assert_eq!(
        to_text(&all),
        "being (2 source(s))\n  https://en.wikipedia.org/wiki/Entity — Wikipedia — 1 quote(s)\n  https://en.wiktionary.org/wiki/being — Wiktionary — 1 quote(s)\n2 anchor(s) in 1 of 1 term(s), 2 quote(s)\n"
    );
    assert_eq!(all.len(), 1);
    assert_eq!(all[0].term, "being");
    let s = &all[0].sources;
    assert_eq!(s.len(), 2);
    assert_eq!(s[0].url, "https://en.wikipedia.org/wiki/Entity");
    assert_eq!(s[0].label, "Wikipedia");
    assert_eq!(s[0].quotes, ["cited inline."]);
    assert_eq!(s[1].url, "https://en.wiktionary.org/wiki/being");
    assert_eq!(s[1].label, "Wiktionary");
    assert_eq!(s[1].quotes, ["existence."]);
}

#[test]
fn pages_are_the_same_whatever_the_scheme() {
    assert!(same_page("http://x.org/a", "https://x.org/a"));
    assert!(!same_page("http://x.org/a", "http://x.org/b"));
}

#[test]
fn a_prose_line_parts_sources() {
    let a = "<a href=\"https://x.org/a\" target=\"_blank\">A</a>\n> one\n";
    let b = "> orphan\n\n> <a href=\"https://x.org/b\">B</a>: two\r";
    for (a, b) in [(a, b), (b, a), ("", b), (a, "")] {
        let whole = extract_sources(&format!("{a}\n\nProse.\n\n{b}"));
        let mut parts = extract_sources(a);
        parts.extend(extract_sources(b));
        assert_eq!(whole, parts);
    }
}
