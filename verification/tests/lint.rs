use existence::commands::lint::{
    check_links, collect, lint_content, lint_single_file, normalize_heading, report, run,
};
use existence::markdown::{extract_typed_links, NodeFile};

fn file(term: &str, content: &str) -> NodeFile {
    NodeFile { term: term.to_string(), content: content.to_string() }
}

#[test]
fn test_lint_valid_content() {
    let content = r#"# Test

## [Ontology](./ontology.md)

Definition here.

## [Axiology](./axiology.md)

Value here.

## [Epistemology](./epistemology.md)

Knowledge here.
"#;
    let errors = lint_content(content, "test.md", &vec![]).errors;
    // No structural errors (broken links are expected since no terms exist)
    let structural: Vec<_> = errors
        .iter()
        .filter(|e| !e.starts_with("Broken link"))
        .collect();
    assert!(structural.is_empty());
}

#[test]
fn test_lint_missing_sections() {
    let content = "# Test\n\nSome content.\n";
    let errors = lint_content(content, "test.md", &vec![]).errors;
    assert!(errors.iter().any(|e| e.contains("Ontology")));
    assert!(errors.iter().any(|e| e.contains("Axiology")));
    assert!(errors.iter().any(|e| e.contains("Epistemology")));
}

#[test]
fn test_lint_missing_title() {
    let content = "## [Ontology](./ontology.md)\n## [Axiology](./axiology.md)\n## [Epistemology](./epistemology.md)\n";
    let errors = lint_content(content, "test.md", &vec![]).errors;
    assert!(errors.iter().any(|e| e.contains("Missing title")));
}

#[test]
fn test_recognized_subsections_both_spellings_no_warning() {
    let content = r#"# Test

## Ontology

Definition.

## Axiology

Value.

## Epistemology

### [Cultural](./culture.md) Definition

Quoted.

### [Pattern](./pattern.md) Expression

Shown.

### Sources

Quoted.

### Examples

Shown.
"#;
    let findings = lint_content(content, "test.md", &vec![]);
    assert!(findings.warnings.is_empty(), "got: {:?}", findings.warnings);
}

#[test]
fn test_non_standard_subsection_warns_without_error() {
    let content = r#"# Test

## Ontology

Definition.

## Axiology

Value.

## Epistemology

### Example

A near miss.
"#;
    let findings = lint_content(content, "test.md", &vec![]);
    assert!(findings.errors.is_empty(), "got: {:?}", findings.errors);
    assert_eq!(findings.warnings.len(), 1);
    assert!(findings.warnings[0].contains("`Example`"));
    assert!(findings.warnings[0].contains("Pattern Expression | Examples"));
}

#[test]
fn test_subsections_in_unlisted_sections_are_ignored() {
    let content = r#"# Test

## Ontology

Definition.

## Axiology

### Anything Goes Here

Value.

## Ethics

### Or Here

Care.

## Epistemology

Knowledge.
"#;
    let findings = lint_content(content, "test.md", &vec![]);
    assert!(findings.warnings.is_empty(), "got: {:?}", findings.warnings);
}

#[test]
fn test_pattern_node_subsections_under_ontology_no_warning() {
    let content = r#"# Test

## Ontology

Lay definition.

### [Pattern](./pattern.md)

**Context.** Recurs at several scales.

### Senses

| Scale | Sense | What it means | How the software spells it |
|-------|-------|---------------|----------------------------|
| Product | **Thing** | The product meaning. | `thing_id` |

## Axiology

Value.

## Epistemology

### Examples

Shown.
"#;
    let findings = lint_content(content, "test.md", &vec![]);
    assert!(findings.warnings.is_empty(), "got: {:?}", findings.warnings);
}

#[test]
fn test_non_standard_ontology_subsection_warns_without_error() {
    let content = r#"# Test

## Ontology

Definition.

### Meanings

A near miss for Senses.

## Axiology

Value.

## Epistemology

Knowledge.
"#;
    let findings = lint_content(content, "test.md", &vec![]);
    assert!(findings.errors.is_empty(), "got: {:?}", findings.errors);
    assert_eq!(findings.warnings.len(), 1);
    assert!(findings.warnings[0].contains("Non-standard Ontology subsection `Meanings`"));
    assert!(findings.warnings[0].contains("Pattern, Senses"));
}

#[test]
fn test_normalize_heading_strips_links() {
    assert_eq!(
        normalize_heading("### [Pattern](./pattern.md) Expression"),
        "Pattern Expression"
    );
    assert_eq!(normalize_heading("###   Sources  "), "Sources");
}

#[test]
fn headings_with_unfinished_links_stay() {
    assert_eq!(normalize_heading("### [open"), "[open");
    assert_eq!(normalize_heading("### [a](b"), "[a](b");
    assert_eq!(normalize_heading("### [a](b) [c](d)!"), "a c!");
}

#[test]
fn test_lint_broken_links() {
    let content = r#"# Test

## [Ontology](./ontology.md)

Links to [foo](./foo.md) and [bar](./bar.md).

## [Axiology](./axiology.md)

Value.

## [Epistemology](./epistemology.md)

Knowledge.
"#;
    let existing = vec!["foo".to_string()];
    let errors = lint_content(content, "test.md", &existing).errors;
    // "bar" and "ontology" are broken, "foo" is OK
    assert!(errors.iter().any(|e| e.contains("bar")));
    assert!(!errors.iter().any(|e| e.contains("[foo]")));
    assert!(errors.contains(
        &"Broken link: [bar](./bar.md) — file src/bar.md not found (referenced in test.md)"
            .to_string()
    ));
}

#[test]
fn typed_links_are_warned_about() {
    let links = extract_typed_links(
        "[a](./x.md \"broader\") [b](./x.md \"narrower\") [c](./y.md \"part-of\") [d](./z.md \"related\")",
    );
    let warnings = check_links(&links);
    assert_eq!(
        warnings,
        [
            "Unknown link title `part-of` on [y](./y.md) — recognized relations: broader | narrower | related",
            "[x](./x.md) is typed both broader and narrower",
        ]
    );
    let content = "# T\n\n## Ontology\n\n[a](./t.md \"odd\")\n\n## Axiology\n\n## Epistemology\n";
    let findings = lint_content(content, "t.md", &vec!["t".to_string()]);
    assert!(findings.errors.is_empty());
    assert_eq!(findings.warnings.len(), 1);
}

const GOOD: &str = "# T\n\n## Ontology\n\nx\n\n## Axiology\n\nx\n\n## Epistemology\n\nx\n";

#[test]
fn a_run_counts_errors_and_warnings() {
    let clean = run(&vec![file("a", GOOD)]);
    assert_eq!(clean.text, "All nodes pass lint checks.\n");
    assert_eq!(clean.failure, None);

    let warned = format!("{GOOD}\n### Odd\n");
    let report_of_warning = run(&vec![file("a", &warned)]);
    assert_eq!(
        report_of_warning.text,
        "a.md:\n  - warn: Non-standard Epistemology subsection `Odd` — recognized vocabulary: Cultural Definition | Sources, Pattern Expression | Examples\n\nAll nodes pass lint checks (1 warning(s)).\n"
    );
    assert_eq!(report_of_warning.failure, None);

    let broken = run(&vec![file("a", "x"), file("b", GOOD), file("c", &warned)]);
    assert!(broken.text.ends_with("4 error(s) in 1 file(s), 1 warning(s).\n"));
    assert_eq!(broken.failure.as_deref(), Some("4 lint error(s) found"));
}

#[test]
fn results_stand_in_the_order_of_file_names() {
    let nodes = vec![file("a", "x"), file("a-b", "x"), file("b", GOOD)];
    let results = collect(&nodes);
    let names: Vec<&str> = results.iter().map(|r| r.file.as_str()).collect();
    assert_eq!(names, ["a-b.md", "a.md"]);
    assert!(report(&results).failure.is_some());
}

#[test]
fn a_single_file_is_reported_on_its_own() {
    let ok = lint_single_file(GOOD, "t.md", &vec![]);
    assert_eq!(ok.text, "t.md: OK\n");
    assert_eq!(ok.failure, None);
    let bad = lint_single_file("# T\n\n## Ontology\n\n## Axiology\n", "t.md", &vec![]);
    assert_eq!(bad.text, "t.md:\n  - Missing required section: ## [Epistemology]\n");
    assert_eq!(bad.failure.as_deref(), Some("1 lint error(s) found"));
}
