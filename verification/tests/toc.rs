use existence::commands::toc::{
    build, default_base, is_plain_sentence, problems, relative_path, run, to_markdown, Toc,
    TocOutput,
};
use existence::config::{Config, Meta, Ring};
use existence::markdown::NodeFile;

fn file(term: &str, content: &str) -> NodeFile {
    NodeFile { term: term.to_string(), content: content.to_string() }
}

fn ring(level: u32, name: &str, description: &str, terms: &[&str]) -> Ring {
    Ring {
        level,
        name: name.to_string(),
        description: description.to_string(),
        terms: terms.iter().map(|t| t.to_string()).collect(),
    }
}

fn setup() -> (Config, Vec<NodeFile>) {
    let config = Config {
        meta: Meta {
            name: "test/ontology".to_string(),
            description: "A test ontology".to_string(),
            base_iri: None,
            vocab_iri: None,
        },
        rings: vec![
            ring(0, "kernel", "core terms", &["existence", "entity", "ghost"]),
            ring(1, "software", "bridge", &["state"]),
        ],
    };
    let nodes = vec![
        file(
            "entity",
            "# Entity\n\n## [Ontology](./ontology.md)\n\n> A quoted definition instead of a sentence.\n\n## [Axiology](./axiology.md)\n\nx\n",
        ),
        file(
            "existence",
            "# Existence\n\n## [Ontology](./ontology.md)\n\nEverything that 'is'; a [scoped](./scope.md \"narrower\") whole of [entities](./entity.md#top).\n\nMore depth.\n\n## [Axiology](./axiology.md)\n\nx\n",
        ),
        file(
            "state",
            "# State\n\n## [Ontology](./ontology.md)\n\nThe **condition** of an [Entity](./entity.md).\n",
        ),
        // Unringed, and no Ontology section at all.
        file("stray", "# Stray\n\n## [Axiology](./axiology.md)\n\nx\n"),
    ];
    (config, nodes)
}

fn toc_of(ring: Option<u32>, base: &str) -> Toc {
    let (config, nodes) = setup();
    build(&config, &nodes, ring, base).unwrap()
}

#[test]
fn build_groups_by_ring_and_reports_manifest_drift() {
    let toc = toc_of(None, "src/");
    assert_eq!(toc.name, "test/ontology");
    assert_eq!(toc.base, "src");
    assert_eq!(toc.rings.len(), 2);
    let r0 = &toc.rings[0];
    assert_eq!((r0.level, r0.name.as_str()), (0, "kernel"));
    let terms: Vec<&str> = r0.terms.iter().map(|e| e.term.as_str()).collect();
    assert_eq!(
        terms,
        vec!["existence", "entity"],
        "manifest order, missing dropped"
    );
    assert_eq!(r0.missing, vec!["ghost"]);
    assert_eq!(toc.rings[1].terms[0].term, "state");
    let unringed: Vec<&str> = toc.unringed.iter().map(|e| e.term.as_str()).collect();
    assert_eq!(unringed, vec!["stray"]);
}

#[test]
fn entries_carry_title_path_and_rebased_definition() {
    let toc = toc_of(None, "docs/nodes");
    let e = &toc.rings[0].terms[0];
    assert_eq!(e.title, "Existence");
    assert_eq!(e.path, "docs/nodes/existence.md");
    assert_eq!(
        e.definition.as_deref(),
        Some(
            "Everything that 'is'; a [scoped](docs/nodes/scope.md \"narrower\") whole of [entities](docs/nodes/entity.md#top)."
        )
    );
    assert_eq!(
        e.definition_text.as_deref(),
        Some("Everything that 'is'; a scoped whole of entities.")
    );
    let stray = &toc.unringed[0];
    assert_eq!(stray.title, "Stray");
    assert_eq!(stray.definition, None);
    assert_eq!(stray.definition_text, None);
}

#[test]
fn empty_base_links_to_siblings() {
    let toc = toc_of(Some(1), "");
    assert_eq!(toc.rings.len(), 1);
    assert!(toc.unringed.is_empty(), "ring filter omits unringed terms");
    let e = &toc.rings[0].terms[0];
    assert_eq!(e.path, "state.md");
    assert_eq!(
        e.definition.as_deref(),
        Some("The **condition** of an [Entity](entity.md).")
    );
}

#[test]
fn ring_filter_rejects_unknown_ring() {
    let (config, nodes) = setup();
    let err = build(&config, &nodes, Some(7), "src").unwrap_err();
    assert!(err.contains("Ring 7 not defined"), "{err}");
}

#[test]
fn markdown_rendering() {
    let md = to_markdown(&toc_of(None, "src"));
    let expected = "# test/ontology\n\nA test ontology\n\n\
## Ring 0 — kernel\n\ncore terms\n\n\
- [**Existence**](src/existence.md) — Everything that 'is'; a [scoped](src/scope.md \"narrower\") whole of [entities](src/entity.md#top).\n\
- [**Entity**](src/entity.md) — > A quoted definition instead of a sentence.\n\
- `ghost` — *missing: no `src/ghost.md`*\n\n\
## Ring 1 — software\n\nbridge\n\n\
- [**State**](src/state.md) — The **condition** of an [Entity](src/entity.md).\n\n\
## Unringed\n\nTerms in `src/` that no ring in `existence.toml` declares.\n\n\
- [**Stray**](src/stray.md) — *(no lay definition)*\n";
    assert_eq!(md, expected);
}

#[test]
fn json_rendering_has_slug_and_title() {
    let (config, nodes) = setup();
    let v = match run(&config, &nodes, None, "json", "src", false).unwrap() {
        TocOutput::Json(toc) => toc,
        other => panic!("{other:?}"),
    };
    assert_eq!(v.base, "src");
    assert_eq!(v.rings[0].level, 0);
    assert_eq!(v.rings[0].terms[0].term, "existence");
    assert_eq!(v.rings[0].terms[0].title, "Existence");
    assert_eq!(v.rings[0].missing[0], "ghost");
    assert_eq!(v.unringed[0].term, "stray");
    assert!(v.unringed[0].definition.is_none());
}

#[test]
fn check_reports_blockquote_missing_file_and_unringed() {
    let found = problems(&toc_of(None, "src"));
    let terms: Vec<&str> = found.iter().map(|p| p.term.as_str()).collect();
    assert_eq!(terms, vec!["entity", "ghost", "stray", "stray"]);
    assert!(
        found[0].message.contains("plain sentence"),
        "{}",
        found[0].message
    );
    assert!(
        found[1].message.contains("does not exist"),
        "{}",
        found[1].message
    );
    assert!(
        found[2].message.contains("no lay definition"),
        "{}",
        found[2].message
    );
    assert!(
        found[3].message.contains("not declared"),
        "{}",
        found[3].message
    );

    let (config, nodes) = setup();
    match run(&config, &nodes, None, "markdown", "src", true).unwrap() {
        TocOutput::Problems(lines, summary) => {
            assert_eq!(summary, "4 toc problem(s) found");
            assert_eq!(
                lines[1],
                "ghost: declared in ring 0 of existence.toml but src/ghost.md does not exist"
            );
        }
        other => panic!("{other:?}"),
    }
    match run(&config, &nodes, Some(1), "markdown", "src", true).unwrap() {
        TocOutput::Clean(line) => assert_eq!(line, "toc: 1 term(s), no problems."),
        other => panic!("{other:?}"),
    }
}

#[test]
fn plain_sentence_heuristic() {
    for ok in [
        "A sentence.",
        "  Indented prose",
        "[link](./a.md) first",
        "**Bold** start",
        "3 things",
    ] {
        assert!(is_plain_sentence(ok), "{ok:?}");
    }
    for bad in [
        "> quote",
        ">",
        "# heading",
        "- item",
        "* item",
        "+ item",
        "1. item",
        "2) item",
        "| a | b |",
        "```rust",
        "~~~",
        "<a href=\"x\">x</a>",
        "![img](x.png)",
        "[^1]: note",
        "",
    ] {
        assert!(!is_plain_sentence(bad), "{bad:?}");
    }
}

#[test]
fn a_blockquote_needs_no_space() {
    assert!(!is_plain_sentence(">quoted without a space"));
    assert!(!is_plain_sentence("  >indented"));
    assert!(is_plain_sentence("a > b"));
}

#[test]
fn output_file_defaults_base_to_relative_src() {
    let (config, nodes) = setup();
    let deep = default_base(Some("/onto/docs/deep"), Some("/onto/src"));
    let text = match run(&config, &nodes, None, "markdown", &deep, false).unwrap() {
        TocOutput::Markdown(text) => text,
        other => panic!("{other:?}"),
    };
    assert!(text.contains("](../../src/existence.md)"), "{text}");
    assert!(
        text.contains("[entities](../../src/entity.md#top)"),
        "{text}"
    );
    let root = default_base(Some("/onto"), Some("/onto/src"));
    assert_eq!(toc_of(None, &root).base, "src");
    let inside = toc_of(None, &default_base(Some("/onto/src"), Some("/onto/src")));
    assert_eq!(inside.base, ".");
    assert_eq!(inside.rings[0].terms[0].path, "./existence.md");
}

#[test]
fn the_base_of_a_printed_index_is_src() {
    assert_eq!(default_base(None, Some("/onto/src")), "src");
    assert_eq!(default_base(Some("/onto/docs"), None), "src");
    assert_eq!(default_base(Some("/onto/docs"), Some("/onto/src")), "../src");
}

#[test]
fn relative_path_cases() {
    assert_eq!(relative_path("/a/b", "/a/b/src"), "src");
    assert_eq!(relative_path("/a/b/docs", "/a/b/src"), "../src");
    assert_eq!(relative_path("/a/b/src", "/a/b/src"), ".");
    assert_eq!(relative_path("/x/y", "/a/b/src"), "../../a/b/src");
}

#[test]
fn unknown_format_is_an_error() {
    let (config, nodes) = setup();
    let err = run(&config, &nodes, None, "yaml", "src", false).unwrap_err();
    assert!(err.contains("Unknown toc format"), "{err}");
}

#[test]
fn a_long_opening_is_cut_in_the_message() {
    let quote = format!("> {}", "word ".repeat(40));
    let nodes = vec![file("a", &format!("# A\n\n## Ontology\n\n{quote}\n"))];
    let (config, _) = setup();
    let toc = build(&config, &nodes, None, "src").unwrap();
    let found = problems(&toc);
    let about: Vec<&str> = found
        .iter()
        .filter(|p| p.term == "a" && p.message.contains("plain"))
        .map(|p| p.message.as_str())
        .collect();
    let cut: String = quote.chars().take(60).collect();
    assert_eq!(
        about,
        [format!("Ontology section does not open with a plain sentence: \"{cut}…\"")]
    );
}

#[test]
fn a_definition_of_marks_alone_has_no_text() {
    let nodes = vec![file("a", "# A\n\n## Ontology\n\n****\n")];
    let (config, _) = setup();
    let toc = build(&config, &nodes, None, "src").unwrap();
    assert!(problems(&toc)
        .iter()
        .any(|p| p.message == "lay definition has no text once markdown is stripped"));
}

#[test]
fn an_index_ends_in_one_line_break() {
    for (config, nodes) in [setup(), (setup().0, Vec::new())] {
        let toc = build(&config, &nodes, None, "src").unwrap();
        let text = to_markdown(&toc);
        assert!(text.ends_with('\n') && !text.ends_with("\n\n"), "{text}");
    }
}
