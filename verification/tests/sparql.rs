use existence::commands::source_check::urls::percent_encode;
use existence::commands::sparql::engine::{
    render, render_reply, respond, respond_with, Answer, Fault,
};
use existence::commands::sparql::{
    error_status, form_param, format_for_accept, query_from_request, raw_param, run, url_decode,
    Engine, FORMATS,
};
use existence::config::{Config, Meta, Ring};
use existence::markdown::NodeFile;

#[test]
fn url_decode_handles_percent_and_plus() {
    assert_eq!(url_decode("a+b%20c%3F"), "a b c?");
    assert_eq!(url_decode("100%"), "100%");
    assert_eq!(url_decode("%zz"), "%zz");
    assert_eq!(
        form_param("format=json&query=SELECT+%2A+WHERE+%7B%7D", "query").as_deref(),
        Some("SELECT * WHERE {}")
    );
    assert_eq!(form_param("a=1", "query"), None);
}

#[test]
fn decoding_is_over_bytes() {
    assert_eq!(url_decode("%C3%A9t%c3%a9"), "été");
    assert_eq!(url_decode("%FF"), "\u{FFFD}");
    assert_eq!(url_decode("%+f"), "% f");
    assert_eq!(url_decode("é%"), "é%");
    assert_eq!(url_decode("%é1"), "%é1");
    assert_eq!(url_decode("%4é"), "%4é");
    for text in ["", "SELECT ?t { ?t a skos:Concept }", "é — ☃ 𝄞", "a%b+c&d=e"] {
        assert_eq!(url_decode(&percent_encode(text)), text);
    }
}

#[test]
fn the_first_pair_with_the_key_counts() {
    assert_eq!(raw_param("x&q=a%20b=c&q=2", "q").as_deref(), Some("a%20b=c"));
    assert_eq!(raw_param("q", "q"), None);
    assert_eq!(raw_param("q=", "q").as_deref(), Some(""));
}

#[test]
fn accept_header_picks_format() {
    assert_eq!(format_for_accept(None), "json");
    assert_eq!(format_for_accept(Some("text/csv")), "csv");
    assert_eq!(format_for_accept(Some("text/tab-separated-values")), "tsv");
    assert_eq!(
        format_for_accept(Some("application/sparql-results+xml")),
        "xml"
    );
    assert_eq!(format_for_accept(Some("*/*")), "json");
}

#[test]
fn request_shapes() {
    assert_eq!(
        query_from_request("GET", "/sparql?query=ASK+%7B%7D", None, "").unwrap(),
        "ASK {}"
    );
    assert_eq!(
        query_from_request(
            "POST",
            "/sparql",
            Some("application/x-www-form-urlencoded"),
            "query=ASK+%7B%7D"
        )
        .unwrap(),
        "ASK {}"
    );
    assert_eq!(
        query_from_request(
            "POST",
            "/sparql",
            Some("application/sparql-query"),
            "ASK {}"
        )
        .unwrap(),
        "ASK {}"
    );
    assert!(query_from_request("GET", "/nope?query=x", None, "")
        .unwrap_err()
        .starts_with("not found"));
    assert!(query_from_request("PUT", "/sparql", None, "")
        .unwrap_err()
        .starts_with("method"));
    assert!(query_from_request("GET", "/sparql", None, "")
        .unwrap_err()
        .starts_with("bad request"));
}

fn file(term: &str, content: &str) -> NodeFile {
    NodeFile { term: term.to_string(), content: content.to_string() }
}

fn sample() -> (Config, Vec<NodeFile>) {
    let config = Config {
        meta: Meta {
            name: "sample".to_string(),
            description: "sample".to_string(),
            base_iri: None,
            vocab_iri: None,
        },
        rings: vec![Ring {
            level: 0,
            name: "kernel".to_string(),
            description: "core".to_string(),
            terms: vec!["existence".to_string(), "entity".to_string()],
        }],
    };
    let nodes = vec![
        file(
            "entity",
            "# Entity\n\n## [Ontology](./ontology.md)\n\nAny information in [Existence](./existence.md \"broader\").\n\n## [Axiology](./axiology.md)\n\nA\n\n## [Epistemology](./epistemology.md)\n\nE\n",
        ),
        file(
            "existence",
            "# Existence\n\n## [Ontology](./ontology.md)\n\nEverything.\n\n## [Axiology](./axiology.md)\n\nA\n\n## [Epistemology](./epistemology.md)\n\nE\n",
        ),
    ];
    (config, nodes)
}

fn engine(base_iri: Option<&str>) -> Engine {
    let (config, nodes) = sample();
    match Engine::load(&config, &nodes, base_iri) {
        Ok(e) => e,
        Err(e) => panic!("{e}"),
    }
}

fn ask(engine: &Engine, query: &str, format: &str) -> (String, &'static str) {
    let out = engine.query(query, format).unwrap();
    (String::from_utf8(out.body).unwrap(), out.media)
}

#[test]
fn select_ask_construct_with_implicit_prefixes() {
    let engine = engine(Some("https://example.org/o/"));

    let (text, media) = ask(
        &engine,
        "SELECT ?t WHERE { ?t a skos:Concept } ORDER BY ?t",
        "text",
    );
    assert_eq!(media, "text/plain");
    assert_eq!(
        text,
        "t\n<https://example.org/o/entity>\n<https://example.org/o/existence>\n"
    );

    let (json, media) = ask(
        &engine,
        "SELECT ?label WHERE { :entity skos:prefLabel ?label }",
        "json",
    );
    assert_eq!(media, "application/sparql-results+json");
    let doc: serde_json::Value = serde_json::from_str(&json).unwrap();
    assert_eq!(doc["head"]["vars"][0], "label");
    assert_eq!(doc["results"]["bindings"][0]["label"]["value"], "Entity");
    assert_eq!(doc["results"]["bindings"][0]["label"]["xml:lang"], "en");

    let (text, _) = ask(&engine, "ASK { :entity skos:broader :existence }", "text");
    assert_eq!(text, "true\n");
    let (text, _) = ask(&engine, "ASK { :existence skos:broader :entity }", "text");
    assert_eq!(text, "false\n");

    let (csv, media) = ask(
        &engine,
        "SELECT (COUNT(?c) AS ?n) WHERE { ?c a skos:Concept }",
        "csv",
    );
    assert_eq!(media, "text/csv");
    assert!(csv.trim().ends_with('2'), "{csv}");

    let (ttl, media) = ask(
        &engine,
        "CONSTRUCT { ?s skos:narrower ?o } WHERE { ?s skos:narrower ?o }",
        "text",
    );
    assert_eq!(media, "text/turtle");
    assert!(ttl.contains("skos:narrower"), "{ttl}");
    assert!(ttl.contains("existence"), "{ttl}");
}

#[test]
fn explicit_prefix_is_not_redeclared_and_errors_surface() {
    let engine = engine(None);
    let q = "PREFIX skos: <http://example.org/other#> ASK { ?s skos:prefLabel ?o }";
    assert_eq!(engine.with_prefixes(q).matches("PREFIX skos:").count(), 1);
    let (text, _) = ask(&engine, q, "text");
    assert_eq!(text, "false\n");

    let err = engine.query("SELECT ?x WHERE {", "text").unwrap_err();
    assert!(err.starts_with("SPARQL syntax error"), "{err}");
    let err = engine.query("ASK {}", "yaml").unwrap_err();
    assert!(err.contains("Unknown result format 'yaml'"), "{err}");
    assert!(err.ends_with(&format!("(expected one of {FORMATS})")), "{err}");
}

#[test]
fn booleans_read_as_each_format_has_them() {
    let engine = engine(None);
    let asked = |format: &str| ask(&engine, "ASK {}", format);
    assert_eq!(asked("text"), ("true\n".to_string(), "text/plain"));
    assert_eq!(
        asked("json"),
        (
            r#"{"head":{},"boolean":true}"#.to_string(),
            "application/sparql-results+json"
        )
    );
    assert_eq!(
        asked("xml"),
        (
            r#"<?xml version="1.0"?><sparql xmlns="http://www.w3.org/2005/sparql-results#"><head></head><boolean>true</boolean></sparql>"#.to_string(),
            "application/sparql-results+xml"
        )
    );
    assert_eq!(asked("csv"), ("true".to_string(), "text/csv"));
    assert_eq!(asked("tsv"), ("true".to_string(), "text/tab-separated-values"));
    let no = render(&vec![], "json", &Answer::Boolean(false)).unwrap();
    assert_eq!(
        String::from_utf8(no.body).unwrap(),
        r#"{"head":{},"boolean":false}"#
    );
}

fn solutions() -> Answer {
    Answer::Solutions {
        variables: vec!["?a".to_string(), "?b".to_string()],
        rows: vec![
            vec![Some("\"x\\ty\"@en".to_string()), None],
            vec![
                Some("<http://a.org/>".to_string()),
                Some("\"1\"^^<http://www.w3.org/2001/XMLSchema#integer>".to_string()),
            ],
        ],
    }
}

#[test]
fn solutions_read_as_each_format_has_them() {
    let read = |format: &str| {
        String::from_utf8(render(&vec![], format, &solutions()).unwrap().body).unwrap()
    };
    assert_eq!(
        read("text"),
        "a\tb\n\"x\\ty\"@en\t\n<http://a.org/>\t\"1\"^^<http://www.w3.org/2001/XMLSchema#integer>\n"
    );
    assert_eq!(read("csv"), "a,b\r\nx\ty,\r\nhttp://a.org/,1\r\n");
    assert_eq!(read("tsv"), "?a\t?b\n\"x\\ty\"@en\t\n<http://a.org/>\t1\n");
    let doc: serde_json::Value = serde_json::from_str(&read("json")).unwrap();
    assert_eq!(doc["results"]["bindings"][0]["a"]["value"], "x\ty");
    assert!(doc["results"]["bindings"][0].get("b").is_none());
    assert!(read("xml").contains("<binding name=\"b\">"));
    let bad = Answer::Solutions {
        variables: vec!["?a".to_string()],
        rows: vec![vec![Some("no term".to_string())]],
    };
    assert!(render(&vec![], "json", &bad)
        .unwrap_err()
        .starts_with("write error: "));
}

#[test]
fn graphs_are_written_in_turtle_with_named_prefixes() {
    let prefixes = vec![
        ("ex".to_string(), "http://ex.org/".to_string()),
        (String::new(), "http://base.org/".to_string()),
    ];
    let graph = Answer::Graph(vec![
        "<http://ex.org/a> <http://ex.org/p> <http://base.org/b>".to_string(),
    ]);
    let out = render(&prefixes, "json", &graph).unwrap();
    assert_eq!(out.media, "text/turtle");
    assert_eq!(
        String::from_utf8(out.body).unwrap(),
        "@prefix ex: <http://ex.org/> .\nex:a ex:p <http://base.org/b> .\n"
    );
    let bad = vec![("ex".to_string(), "no iri".to_string())];
    assert!(render(&bad, "json", &graph)
        .unwrap_err()
        .starts_with("bad prefix IRI no iri: "));
    let none = Answer::Graph(vec!["no triple".to_string()]);
    assert!(render(&prefixes, "json", &none)
        .unwrap_err()
        .starts_with("write error: "));
}

#[test]
fn faults_say_what_failed() {
    let syntax = Err(Fault::Syntax("at 1".to_string()));
    assert_eq!(
        render_reply(&vec![], "text", &syntax).unwrap_err(),
        "SPARQL syntax error: at 1"
    );
    let failed = Err(Fault::Failed("why".to_string()));
    assert_eq!(
        render_reply(&vec![], "text", &failed).unwrap_err(),
        "query failed: why"
    );
    let engine = engine(None);
    let err = engine
        .query("SELECT * { SERVICE <http://a.org/> { ?s ?p ?o } }", "text")
        .unwrap_err();
    assert!(err.starts_with("query failed: "), "{err}");
}

#[test]
fn an_endpoint_answers_requests() {
    let engine = engine(None);
    let text = |body: Vec<u8>| String::from_utf8(body).unwrap();
    let a = respond(&engine, "get", "/sparql?query=ASK+%7B%7D", None, None, Some(""));
    assert_eq!((a.status, a.media), (200, "application/sparql-results+json"));
    let a = respond(
        &engine,
        "POST",
        "/",
        Some("application/sparql-query"),
        Some("text/csv"),
        Some("ASK {}"),
    );
    assert_eq!((a.status, a.media, text(a.body)), (200, "text/csv", "true".to_string()));
    let a = respond(&engine, "GET", "/nope", None, None, Some(""));
    assert_eq!(
        (a.status, a.media, text(a.body)),
        (404, "text/plain", "not found: the endpoint is /sparql".to_string())
    );
    let a = respond(&engine, "PUT", "/sparql", None, None, Some(""));
    assert_eq!(a.status, 405);
    let a = respond(&engine, "GET", "/sparql", None, None, Some(""));
    assert_eq!(a.status, 400);
    let a = respond(&engine, "POST", "/sparql", None, None, None);
    assert_eq!(
        (a.status, text(a.body)),
        (400, "bad request: body is not UTF-8".to_string())
    );
    let a = respond(&engine, "POST", "/sparql", None, None, Some("SELECT"));
    assert_eq!(a.status, 400);
    assert!(text(a.body).starts_with("SPARQL syntax error"));
    assert_eq!(respond_with(Err("x".to_string())).status, 400);
    assert_eq!(error_status("not found: x"), 404);
}

#[test]
fn an_ontology_that_cannot_be_exported_cannot_be_asked() {
    let (config, nodes) = sample();
    let err = run(&config, &nodes, "ASK {}", "text", Some("https://bad example/")).unwrap_err();
    assert!(err.contains("base IRI"), "{err}");
    let out = run(&config, &nodes, "ASK {}", "text", None).unwrap();
    assert_eq!(String::from_utf8(out.body).unwrap(), "true\n");
}
