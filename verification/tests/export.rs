use existence::commands::export::{
    build, is_safe_iri, is_safe_iri_segment, literal, normalize_base_iri, run, to_jsonld,
    to_turtle, ExportGraph, ExportNode, Rendered, DEFAULT_BASE_IRI, DEFAULT_VOCAB_IRI, SKOS,
};
use existence::config::{Config, Meta, Ring};
use existence::json::write_json;
use existence::markdown::NodeFile;

fn file(term: &str, content: &str) -> NodeFile {
    NodeFile { term: term.to_string(), content: content.to_string() }
}

fn ring(level: u32, name: &str, description: &str, terms: &[&str]) -> Ring {
    Ring {
        level,
        name: name.to_string(),
        description: description.to_string(),
        terms: terms.iter().map(|t| t.to_string()).collect(),
    }
}

fn config(base_iri: Option<&str>, vocab_iri: Option<&str>) -> Config {
    Config {
        meta: Meta {
            name: "sample/ontology".to_string(),
            description: "A sample ontology".to_string(),
            base_iri: base_iri.map(str::to_string),
            vocab_iri: vocab_iri.map(str::to_string),
        },
        rings: vec![
            ring(0, "kernel", "core", &["existence", "entity", "missing"]),
            ring(1, "software", "bridge", &["model"]),
        ],
    }
}

fn nodes() -> Vec<NodeFile> {
    vec![
        file(
            "entity",
            "# Entity\n\n## [Ontology](./ontology.md)\n\nAny **information** in [Existence](./existence.md).\n\nMore about [existence](./existence.md) and [nowhere](./nowhere.md).\n\n## [Axiology](./axiology.md)\n\nSaid \"quoted\" with a\\backslash.\n\n## [Ethics](./ethics.md)\n\nBe kind.\n\n## [Epistemology](./epistemology.md)\n\n<a href=\"https://en.wikipedia.org/wiki/Entity\" target=\"_blank\">Entity</a> and [ref](https://example.org/entity).\n",
        ),
        file(
            "existence",
            "# Existence\n\n## [Ontology](./ontology.md)\n\nEverything that 'is'.\n\n## [Axiology](./axiology.md)\n\nIt matters.\n\n## [Epistemology](./epistemology.md)\n\nSee [entity](./entity.md).\n",
        ),
        file(
            "model",
            "# Model\n\n## [Ontology](./ontology.md)\n\nA [pattern](./pattern.md) of an [entity](./entity.md).\n\n## [Axiology](./axiology.md)\n\nUseful.\n\n## [Epistemology](./epistemology.md)\n\nKnown.\n",
        ),
        file(
            "orphan",
            "# Orphan\n\n## [Ontology](./ontology.md)\n\nNot in any ring.\n\n## [Axiology](./axiology.md)\n\nStill matters.\n\n## [Epistemology](./epistemology.md)\n\nKnown.\n",
        ),
    ]
}

fn node<'a>(g: &'a ExportGraph, term: &str) -> &'a ExportNode {
    g.nodes.iter().find(|n| n.term == term).unwrap()
}

#[test]
fn build_maps_rings_links_and_definitions() {
    let g = build(&config(None, None), &nodes(), None, None).unwrap();

    assert_eq!(g.base_iri, DEFAULT_BASE_IRI);
    assert_eq!(g.vocab_iri, DEFAULT_VOCAB_IRI);
    assert_eq!(g.scheme_name, "sample/ontology");
    assert_eq!(g.nodes.len(), 4);

    // Ring membership only counts terms that exist as files.
    assert_eq!(g.rings[0].terms, vec!["existence", "entity"]);
    assert_eq!(g.rings[1].terms, vec!["model"]);

    let entity = node(&g, "entity");
    assert_eq!(entity.label, "Entity");
    assert_eq!(entity.ring, Some(0));
    assert_eq!(
        entity.definition.as_deref(),
        Some("Any information in Existence.")
    );
    // Links dedupe, drop self-links, and drop targets that do not exist.
    assert_eq!(entity.related, vec!["existence"]);
    assert_eq!(
        entity.see_also,
        vec![
            "https://en.wikipedia.org/wiki/Entity",
            "https://example.org/entity"
        ]
    );
    assert!(entity.ethics.is_some());

    assert_eq!(node(&g, "orphan").ring, None);
    assert_eq!(node(&g, "model").related, vec!["entity"]);
}

#[test]
fn ring_filter_restricts_nodes_and_edges() {
    let g = build(&config(None, None), &nodes(), Some(1), None).unwrap();
    assert_eq!(g.rings.len(), 1);
    assert_eq!(g.rings[0].level, 1);
    let terms: Vec<&str> = g.nodes.iter().map(|n| n.term.as_str()).collect();
    assert_eq!(terms, vec!["model"]);
    // `entity` is outside ring 1, so the edge is dropped.
    assert!(node(&g, "model").related.is_empty());

    assert!(build(&config(None, None), &nodes(), Some(7), None).is_err());
}

#[test]
fn base_iri_precedence_and_normalization() {
    let g = build(
        &config(None, None),
        &nodes(),
        None,
        Some("https://example.org/ont"),
    )
    .unwrap();
    assert_eq!(g.base_iri, "https://example.org/ont/");
    assert_eq!(g.term_iri("entity"), "https://example.org/ont/entity");
    assert_eq!(g.ring_iri(0), "https://example.org/ont/ring/0");

    let with_meta = config(
        Some("https://example.org/meta#"),
        Some("https://example.org/v#"),
    );
    let g = build(&with_meta, &nodes(), None, None).unwrap();
    assert_eq!(g.base_iri, "https://example.org/meta#");
    assert_eq!(g.vocab_iri, "https://example.org/v#");
    // The flag still wins over the config.
    let g = build(&with_meta, &nodes(), None, Some("https://flag.example/")).unwrap();
    assert_eq!(g.base_iri, "https://flag.example/");

    assert!(build(&with_meta, &nodes(), None, Some("https://bad example/")).is_err());
}

#[test]
fn turtle_output_is_well_formed() {
    let g = build(&config(None, None), &nodes(), None, None).unwrap();
    let ttl = to_turtle(&g);

    assert!(ttl.starts_with("@prefix skos: <http://www.w3.org/2004/02/skos/core#> .\n"));
    assert!(ttl.contains(&format!("@prefix xl: <{DEFAULT_VOCAB_IRI}> .")));
    assert!(ttl.contains(&format!("<{DEFAULT_BASE_IRI}> a skos:ConceptScheme ;")));
    assert!(ttl.contains(&format!(
        "skos:hasTopConcept <{DEFAULT_BASE_IRI}existence>, <{DEFAULT_BASE_IRI}entity>"
    )));
    assert!(ttl.contains(&format!("<{DEFAULT_BASE_IRI}ring/1> a skos:Collection ;")));
    assert!(ttl.contains(&format!("<{DEFAULT_BASE_IRI}entity> a skos:Concept ;")));
    assert!(ttl.contains("skos:prefLabel \"Entity\"@en ;"));
    assert!(ttl.contains("skos:definition \"Any information in Existence.\"@en ;"));
    assert!(ttl.contains("xl:ring 0 ;"));
    assert!(ttl.contains(&format!("skos:related <{DEFAULT_BASE_IRI}existence>")));
    assert!(ttl.contains(
        "rdfs:seeAlso <https://en.wikipedia.org/wiki/Entity>, <https://example.org/entity> ."
    ));
    // Section prose is escaped onto one line.
    assert!(ttl.contains("xl:axiology \"Said \\\"quoted\\\" with a\\\\backslash.\"@en ;"));
    assert!(ttl.contains(
        "xl:ontology \"Any **information** in [Existence](./existence.md).\\n\\nMore about"
    ));
    // No orphan-ring predicate for a term outside every ring.
    let orphan_block = ttl
        .split("\n\n")
        .find(|b| b.starts_with(&format!("<{DEFAULT_BASE_IRI}orphan>")))
        .unwrap();
    assert!(!orphan_block.contains("xl:ring"));
    // Every statement block terminates.
    for block in ttl
        .trim_end()
        .split("\n\n")
        .filter(|b| !b.starts_with("@prefix"))
    {
        assert!(block.ends_with(" ."), "unterminated block: {block}");
    }
}

#[test]
fn jsonld_output_has_context_and_graph() {
    let g = build(&config(None, None), &nodes(), None, None).unwrap();
    let doc: serde_json::Value = serde_json::from_str(&write_json(&to_jsonld(&g))).unwrap();

    assert_eq!(doc["@context"]["skos"], SKOS);
    assert_eq!(doc["@context"]["xl"], DEFAULT_VOCAB_IRI);
    let graph = doc["@graph"].as_array().unwrap();
    // 1 scheme + 2 rings + 4 concepts
    assert_eq!(graph.len(), 7);
    assert_eq!(graph[0]["@type"], "skos:ConceptScheme");
    assert_eq!(graph[0]["@id"], DEFAULT_BASE_IRI);

    let entity = graph
        .iter()
        .find(|n| n["@id"] == format!("{DEFAULT_BASE_IRI}entity"))
        .unwrap();
    assert_eq!(entity["@type"], "skos:Concept");
    assert_eq!(entity["skos:prefLabel"]["@value"], "Entity");
    assert_eq!(entity["skos:prefLabel"]["@language"], "en");
    assert_eq!(
        entity["skos:definition"]["@value"],
        "Any information in Existence."
    );
    assert_eq!(entity["xl:ring"], 0);
    assert_eq!(
        entity["skos:related"][0]["@id"],
        format!("{DEFAULT_BASE_IRI}existence")
    );
    assert_eq!(entity["rdfs:seeAlso"].as_array().unwrap().len(), 2);
    assert!(entity["xl:ethics"]["@value"]
        .as_str()
        .unwrap()
        .contains("Be kind."));

    let orphan = graph
        .iter()
        .find(|n| n["@id"] == format!("{DEFAULT_BASE_IRI}orphan"))
        .unwrap();
    assert!(orphan.get("xl:ring").is_none());
    assert!(orphan.get("skos:related").is_none());
}

#[test]
fn run_rejects_unknown_format() {
    let err = run(&config(None, None), &nodes(), None, "xml", None).unwrap_err();
    assert!(err.contains("Unknown export format 'xml'"));
}

#[test]
fn a_run_prints_each_format() {
    let g = build(&config(None, None), &nodes(), None, None).unwrap();
    for name in ["turtle", "ttl"] {
        match run(&config(None, None), &nodes(), None, name, None).unwrap() {
            Rendered::Turtle(text) => assert_eq!(text, to_turtle(&g)),
            other => panic!("{other:?}"),
        }
    }
    for name in ["jsonld", "json-ld"] {
        match run(&config(None, None), &nodes(), None, name, None).unwrap() {
            Rendered::JsonLd(doc) => assert_eq!(write_json(&doc), write_json(&to_jsonld(&g))),
            other => panic!("{other:?}"),
        }
    }
}

#[test]
fn literal_escapes() {
    assert_eq!(literal("plain"), "\"plain\"@en");
    assert_eq!(literal("a\"b\\c\nd\te\r"), "\"a\\\"b\\\\c\\nd\\te\\r\"@en");
}

#[test]
fn typed_links_carry_their_inverse() {
    let page = |title: &str, text: &str| {
        format!("# {title}\n\n## Ontology\n\n{text}\n\n## Axiology\n\nx\n\n## Epistemology\n\ny\n")
    };
    let all = vec![
        file("animal", &page("Animal", "A living [thing](./thing.md \"broader\").")),
        file("cat", &page("Cat", "Said of an [animal](./animal.md \"broader\").")),
        file("thing", &page("Thing", "Anything, a [cat](./cat.md \"narrower\") too.")),
    ];
    let g = build(&config(None, None), &all, None, None).unwrap();
    assert_eq!(node(&g, "animal").broader, ["thing"]);
    assert_eq!(node(&g, "animal").narrower, ["cat"]);
    assert_eq!(node(&g, "cat").broader, ["animal", "thing"]);
    assert_eq!(node(&g, "thing").narrower, ["animal", "cat"]);
    assert!(node(&g, "cat").related.is_empty());
}

#[test]
fn iris_are_normalised_and_checked() {
    assert_eq!(normalize_base_iri("https://a.org/x"), "https://a.org/x/");
    assert_eq!(normalize_base_iri("https://a.org/x#"), "https://a.org/x#");
    assert!(is_safe_iri("https://a.org/x#"));
    assert!(!is_safe_iri("https://a org/"));
    assert!(!is_safe_iri("https://a.org/<x>"));
    assert!(is_safe_iri_segment("a-b_c9"));
    assert!(!is_safe_iri_segment("a/b"));
}

#[test]
fn a_base_iri_is_normal_after_one_pass() {
    for base in [" https://x.org/o ", "https://x.org/o#", "", "urn:x"] {
        let once = normalize_base_iri(base);
        assert!(once.ends_with('/') || once.ends_with('#'), "{once}");
        assert_eq!(normalize_base_iri(&once), once);
    }
}
