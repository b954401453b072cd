use existence::markdown::{
    extract_definition, extract_external_links, extract_links, extract_section, extract_title,
    extract_typed_links, extract_unique_links, list_terms, plain_text, Node, Relation,
};

const SAMPLE: &str = r#"# Existence

## [Ontology](./ontology.md)

Everything that 'is', or more simply, everything.

A [scoped](./scope.md) Existence, representing an [Entity's](./entity.md) [perspective](./perspective.md).

## [Axiology](./axiology.md)

Existence is the Universal Set of everything, including itself.

## [Epistemology](./epistemology.md)

Contrary to some [cultural](./culture.md) [definitions](./definition.md), Existence includes all thoughts.
"#;

#[test]
fn test_parse_node() {
    let node = Node::parse(SAMPLE).unwrap();
    assert_eq!(node.title, "Existence");
    assert!(node.ontology.is_some());
    assert!(node.axiology.is_some());
    assert!(node.epistemology.is_some());
    assert!(node.ethics.is_none());
    assert_eq!(node.raw, SAMPLE);
}

#[test]
fn a_node_without_a_title_is_refused() {
    assert!(Node::parse("no heading").is_err());
    assert!(Node::parse("").is_err());
}

#[test]
fn test_extract_title() {
    assert_eq!(
        extract_title("# Existence\n\nstuff"),
        Some("Existence".to_string())
    );
    assert_eq!(
        extract_title("## Not Title\n# Real Title"),
        Some("Real Title".to_string())
    );
    assert_eq!(extract_title("no heading"), None);
}

#[test]
fn a_section_runs_to_the_next_heading() {
    let text = "# T\n\n## A\n\nfirst\n\n### sub\n\nmore\n\n## B\n\nlast\n";
    assert_eq!(extract_section(text, "A").as_deref(), Some("first\n\n### sub\n\nmore"));
    assert_eq!(extract_section(text, "B").as_deref(), Some("last"));
    assert_eq!(extract_section(text, "C"), None);
}

#[test]
fn test_extract_links() {
    let links = extract_links(
        "[scope](./scope.md) and [entity](./entity.md) plus [pattern](./pattern.md)",
    );
    assert_eq!(links, vec!["scope", "entity", "pattern"]);
}

#[test]
fn test_extract_typed_links() {
    let links = extract_typed_links(
        "[a](./information.md \"broader\") [b](./system.md \"Narrower\") \
             [c](./scope.md) [d](./scope.md \"related\") [e](./soul.md \"part-of\")",
    );
    assert_eq!(links.len(), 5);
    assert_eq!(links[0].term, "information");
    assert_eq!(links[0].relation, Relation::Broader);
    assert_eq!(links[1].relation, Relation::Narrower);
    assert_eq!(links[2].relation, Relation::Related);
    assert_eq!(links[2].unknown_title, None);
    assert_eq!(links[3].relation, Relation::Related);
    assert_eq!(links[4].relation, Relation::Related);
    assert_eq!(links[4].unknown_title.as_deref(), Some("part-of"));
    // Titled links still count as plain links.
    assert_eq!(
        extract_unique_links("[a](./b.md \"broader\") [c](./a.md)"),
        vec!["a", "b"]
    );
}

#[test]
fn test_extract_external_links() {
    let links = extract_external_links(
        "<a href=\"https://b.example/x\" target=\"_blank\">x</a> [y](https://a.example/y) \
             [local](./scope.md) <a href=\"https://b.example/x\">again</a>",
    );
    assert_eq!(links, vec!["https://a.example/y", "https://b.example/x"]);
}

#[test]
fn test_extract_definition_and_plain_text() {
    assert_eq!(
        extract_definition(SAMPLE).as_deref(),
        Some("Everything that 'is', or more simply, everything.")
    );
    assert_eq!(extract_definition("# Title\n\n## Axiology\n\nx"), None);
    assert_eq!(
        plain_text("Any **[information](./information.md)** in `[Existence](./existence.md)`."),
        "Any information in Existence."
    );
}

#[test]
fn test_extract_unique_links() {
    let links = extract_unique_links("[a](./scope.md) [b](./scope.md) [c](./entity.md)");
    assert_eq!(links, vec!["entity", "scope"]);
}

#[test]
fn relation_words_and_titles() {
    for r in [Relation::Broader, Relation::Narrower, Relation::Related] {
        assert_eq!(Relation::parse(r.as_str()), Some(r));
    }
    assert_eq!(Relation::parse("  BROADER "), Some(Relation::Broader));
    assert_eq!(Relation::parse("part-of"), None);
}

#[test]
fn terms_are_the_stems_of_markdown_files_in_order() {
    let names: Vec<String> = ["b.md", "a.md", "notes.txt", ".md", "c.MD", "a-b.md"]
        .iter()
        .map(|s| s.to_string())
        .collect();
    assert_eq!(list_terms(&names), vec!["a", "a-b", "b"]);
}

#[test]
fn a_definition_needs_no_title() {
    assert_eq!(
        extract_definition("## Ontology\n\nA thing.\n").as_deref(),
        Some("A thing.")
    );
    assert_eq!(extract_definition("# A\n\n## Ontology\n\n## Axiology\n\nx\n"), None);
}
