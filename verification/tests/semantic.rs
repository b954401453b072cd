use existence::commands::audit::Finding;
use existence::commands::semantic::{
    access, cache_key, chosen_model, default_model, extract_json, judge_reply, key_variable,
    neighbourhoods, reply_text, request_body, stats_text, text_of_blocks, text_of_parts,
    user_prompt, verdict_from, Block, Cache, Neighbourhood, ReplyParts, Run, Said,
    SemanticOptions, Stats, DEFAULT_CACHE,
};
use existence::markdown::NodeFile;
use existence::table::Table;

fn node(title: &str, ontology: &str) -> String {
    format!("# {title}\n\n## Ontology\n\n{ontology}\n\n## Axiology\n\nx\n\n## Epistemology\n\ny\n")
}

fn file(term: &str, content: String) -> NodeFile {
    NodeFile { term: term.to_string(), content }
}

fn setup() -> Vec<NodeFile> {
    vec![
        // Planted contradiction: entity says everything is an entity; void
        // says it is in Existence but is not an entity.
        file(
            "entity",
            node(
                "Entity",
                "Anything in [Existence](./existence.md) is an entity, without exception.",
            ),
        ),
        file(
            "existence",
            node(
                "Existence",
                "Everything that is; the set of all [entities](./entity.md).",
            ),
        ),
        // No links: skipped without a call.
        file("lonely", node("Lonely", "A term that links nothing.")),
        file(
            "void",
            node(
                "Void",
                "The void is in [Existence](./existence.md) yet is not an [entity](./entity.md).",
            ),
        ),
    ]
}

/// A model stand-in: answers in the shape of the provider; only the prompt for
/// `void` gets a contradiction verdict.
fn answer(provider: &str, body: &str) -> String {
    let verdict = if body.contains("Term `void`") {
        r#"{"contradiction": true, "with": "entity", "a": "The void is in Existence yet is not an entity.", "b": "Anything in Existence is an entity, without exception.", "why": "One admits a non-entity in Existence, the other forbids it."}"#
    } else {
        r#"{"contradiction": false, "with": "", "a": "", "b": "", "why": ""}"#
    };
    let quoted = |s: &str| serde_json::to_string(s).unwrap();
    if provider == "anthropic" {
        format!(
            r#"{{"id": "msg_1", "type": "message", "role": "assistant", "model": "test", "stop_reason": "end_turn", "content": [{{"type": "text", "text": {}}}]}}"#,
            quoted(&format!("Here it is.\n{verdict}"))
        )
    } else {
        format!(
            r#"{{"choices": [{{"message": {{"role": "assistant", "content": {}}}}}]}}"#,
            quoted(verdict)
        )
    }
}

struct Done {
    findings: Vec<Finding>,
    stats: Stats,
    cache: Cache,
    log: Vec<String>,
}

fn run(nodes: &Vec<NodeFile>, provider: &str, cache: Cache, limit: Option<usize>) -> Done {
    let hoods = neighbourhoods(nodes);
    let model = "test-model";
    let mut log = Vec::new();
    let mut pass = Run::start(cache, limit);
    while let Some(i) = pass.advance(&hoods, provider, model) {
        let hood = &hoods[i];
        let body = request_body(provider, model, hood);
        let reply = reply_text(provider, 200, &answer(provider, &body), &hood.term).unwrap();
        log.push(body);
        let verdict =
            judge_reply(&reply, &hood.term, provider, model, "2026-01-01T00:00:00Z").unwrap();
        pass.answer(&hoods, provider, model, verdict);
    }
    Done { findings: pass.findings, stats: pass.stats, cache: pass.cache, log }
}

#[test]
fn planted_contradiction_is_caught_and_a_rerun_makes_zero_calls() {
    let mut nodes = setup();
    let done = run(&nodes, "anthropic", Table::new(), None);
    assert_eq!(
        done.stats,
        Stats { judged: 3, cached: 0, calls: 3, skipped: 1 }
    );
    assert_eq!(done.findings.len(), 1, "{:#?}", done.findings);
    let f = &done.findings[0];
    assert_eq!(
        (
            f.class.as_str(),
            f.check.as_str(),
            f.severity.as_str(),
            f.term.as_str()
        ),
        ("semantic", "contradiction", "warning", "void")
    );
    assert_eq!(
        f.message,
        "lay definition may contradict `entity` (test-model): \u{201c}The void is in Existence yet is not an entity.\u{201d} vs \u{201c}Anything in Existence is an entity, without exception.\u{201d} — One admits a non-entity in Existence, the other forbids it."
    );
    // The request carried the term and its neighbours' definitions.
    assert_eq!(done.log.len(), 3);
    let void_req: serde_json::Value = serde_json::from_str(
        done.log.iter().find(|b| b.contains("Term `void`")).unwrap(),
    )
    .unwrap();
    assert_eq!(void_req["model"], "test-model");
    assert!(void_req["system"]
        .as_str()
        .unwrap()
        .contains("Reply with exactly one JSON object"));
    let content = void_req["messages"][0]["content"].as_str().unwrap();
    assert!(content.contains("- `entity`: Anything in Existence is an entity"));
    assert!(content.contains("- `existence`: Everything that is"));

    // Second run: everything from cache, no requests.
    let again = run(&nodes, "anthropic", done.cache, None);
    assert_eq!(
        again.stats,
        Stats { judged: 3, cached: 3, calls: 0, skipped: 1 }
    );
    assert_eq!(again.findings.len(), 1);
    assert_eq!(
        again.log.len(),
        0,
        "a rerun with no changes must make zero model calls"
    );

    // Editing one node's definition re-judges that node only.
    nodes[2] = file("lonely", node("Lonely", "Still links nothing."));
    nodes[1] = file(
        "existence",
        node(
            "Existence",
            "All that is; the set of all [entities](./entity.md).",
        ),
    );
    let third = run(&nodes, "anthropic", again.cache, None);
    // existence changed, so existence itself and both nodes linking it are re-judged.
    assert_eq!(third.stats.calls, 3);
    assert_eq!(third.stats.cached, 0);
    assert_eq!(third.cache.len(), 6);
    for i in 0..third.cache.len() {
        let v = third.cache.value(i);
        assert!(v.provider == "anthropic" && v.model == "test-model" && v.judged_at.ends_with('Z'));
    }
}

#[test]
fn openai_provider_and_limit() {
    let nodes = setup();
    let done = run(&nodes, "openai", Table::new(), Some(1));
    assert_eq!(done.stats.calls, 1);
    assert_eq!(done.stats.skipped, 3, "the limit skips the rest");
    let body: serde_json::Value = serde_json::from_str(&done.log[0]).unwrap();
    assert_eq!(body["response_format"]["type"], "json_object");
    assert_eq!(body["messages"][0]["role"], "system");
    // A second pass with the limit lifted judges the remaining two.
    let again = run(&nodes, "openai", done.cache, None);
    assert_eq!((again.stats.calls, again.stats.cached), (2, 1));
}

fn opts(provider: &str) -> SemanticOptions {
    SemanticOptions {
        provider: provider.to_string(),
        model: Some("test-model".to_string()),
        endpoint: Some("http://127.0.0.1:1".to_string()),
        api_key: None,
        ..SemanticOptions::default()
    }
}

#[test]
fn missing_key_and_unknown_provider_cannot_run() {
    let mut o = opts("anthropic");
    assert!(access(&o, None)
        .unwrap_err()
        .contains("ANTHROPIC_API_KEY is not set"));
    o.provider = "mistral".to_string();
    o.api_key = Some("k".to_string());
    assert!(access(&o, None).unwrap_err().contains("unknown provider"));
    assert!(key_variable("mistral").is_err());
    assert_eq!(key_variable("openai").unwrap(), "OPENAI_API_KEY");
}

#[test]
fn a_key_given_wins_over_the_environment() {
    let mut o = opts("anthropic");
    let a = access(&o, Some("from-env".to_string())).unwrap();
    assert_eq!(a.key, "from-env");
    assert_eq!(a.url, "http://127.0.0.1:1/v1/messages");
    o.api_key = Some("given".to_string());
    assert_eq!(access(&o, Some("from-env".to_string())).unwrap().key, "given");
    o.provider = "openai".to_string();
    assert_eq!(
        access(&o, None).unwrap().url,
        "http://127.0.0.1:1/v1/chat/completions"
    );
}

#[test]
fn json_is_extracted_from_prose() {
    let v = extract_json("Sure.\n{\"contradiction\": true, \"with\": \"x\"}\nDone.").unwrap();
    let v: serde_json::Value = serde_json::from_str(&v).unwrap();
    assert_eq!(v["with"], "x");
    assert!(extract_json("no object here").is_none());
    assert!(extract_json("{not json}").is_none());
}

#[test]
fn the_first_object_of_a_reply_is_taken() {
    let first = |text: &str| extract_json(text).unwrap();
    assert_eq!(first("{\"a\": 1} then {\"b\": 2}"), "{\"a\": 1}");
    assert_eq!(first("So: {\"a\": {\"b\": {}}} and }"), "{\"a\": {\"b\": {}}}");
    let quoted = "{\"a\": \"} \\\" {\", \"b\": \"\\\\\"}";
    assert_eq!(first(&format!("{quoted} Done :}}")), quoted);
    assert!(extract_json("{\"a\": 1").is_none());
    assert!(extract_json("} nothing {").is_none());
}

#[test]
fn models_are_named_or_default() {
    assert_eq!(default_model("openai"), Some("gpt-5"));
    assert_eq!(default_model("anthropic"), None);
    let mut o = opts("openai");
    assert_eq!(chosen_model(&o).as_deref(), Some("test-model"));
    o.model = None;
    assert_eq!(chosen_model(&o).as_deref(), Some("gpt-5"));
    assert_eq!(SemanticOptions::default().cache, DEFAULT_CACHE);
}

fn hood(definition: &str) -> Neighbourhood {
    Neighbourhood {
        term: "a".to_string(),
        definition: definition.to_string(),
        neighbours: vec![("b".to_string(), "Other.".to_string())],
    }
}

#[test]
fn keys_change_with_what_is_asked() {
    let key = cache_key("openai", "m", &hood("One."));
    assert_eq!(key.len(), 64);
    assert_eq!(key, cache_key("openai", "m", &hood("One.")));
    assert_ne!(key, cache_key("openai", "m", &hood("Two.")));
    assert_ne!(key, cache_key("openai", "n", &hood("One.")));
    assert_ne!(key, cache_key("anthropic", "m", &hood("One.")));
    assert!(user_prompt(&hood("One.")).contains("- `b`: Other."));
}

#[test]
fn replies_that_are_no_verdict_are_errors() {
    assert!(judge_reply("no object", "a", "openai", "m", "t").is_err());
    assert!(reply_text("openai", 500, "{}", "a").is_err());
    assert_eq!(reply_text("openai", 200, "{}", "a").unwrap(), "");
    assert_eq!(
        reply_text("openai", 404, "gone", "a").unwrap_err(),
        "openai returned HTTP 404: gone"
    );
    assert_eq!(
        judge_reply("no object", "a", "openai", "m", "t").unwrap_err(),
        "model reply for `a` carried no JSON object: no object"
    );
    let blocks = r#"{"content": [{"type": "text", "text": "a"}, {"type": "tool", "text": "b"}, {"type": "text", "text": "c"}]}"#;
    assert_eq!(reply_text("anthropic", 200, blocks, "a").unwrap(), "ac");
    let refusal = r#"{"stop_reason": "refusal", "stop_details": {"category": "x"}}"#;
    assert_eq!(
        reply_text("anthropic", 200, refusal, "a").unwrap_err(),
        "anthropic declined to judge `a` (x)"
    );
    assert!(reply_text("anthropic", 200, "not json", "a")
        .unwrap_err()
        .starts_with("anthropic reply is not JSON: "));
    let v = judge_reply("{\"contradiction\": 1, \"why\": \"w\"}", "a", "openai", "m", "t").unwrap();
    assert!(!v.contradiction && v.why == "w" && v.with.is_empty());
    assert!(reply_text("openai", 200, "not json", "a").is_err());
    assert_eq!(
        stats_text(&Stats { judged: 1, cached: 2, calls: 3, skipped: 4 }),
        "semantic: 1 node(s) judged, 2 from cache, 3 model call(s), 4 skipped (no definition or no links)"
    );
}

#[test]
fn only_text_blocks_make_up_a_reply() {
    let block = |form: &str, text: Option<&str>| Block {
        form: Some(form.to_string()),
        text: text.map(str::to_string),
    };
    let blocks = vec![
        block("thinking", Some("hm")),
        block("text", Some("{\"a\"")),
        block("text", None),
        block("text", Some(": 1}")),
    ];
    assert_eq!(text_of_blocks(&blocks), "{\"a\": 1}");
    let parts = ReplyParts {
        fault: None,
        stop_reason: None,
        category: None,
        blocks: Some(blocks),
        choice: Some("chosen".to_string()),
    };
    let text = |provider: &str, status: u16, parts: &ReplyParts| {
        text_of_parts(provider, status, "body", parts, "entity")
    };
    assert_eq!(text("anthropic", 200, &parts).unwrap(), "{\"a\": 1}");
    assert_eq!(text("openai", 200, &parts).unwrap(), "chosen");
    assert_eq!(
        text("openai", 500, &parts).unwrap_err(),
        "openai returned HTTP 500: body"
    );
    let refused = ReplyParts {
        stop_reason: Some("refusal".to_string()),
        ..parts.clone()
    };
    assert_eq!(
        text("anthropic", 200, &refused).unwrap_err(),
        "anthropic declined to judge `entity` (no category)"
    );
    let broken = ReplyParts {
        fault: Some("EOF".to_string()),
        ..parts
    };
    assert_eq!(
        text("anthropic", 200, &broken).unwrap_err(),
        "anthropic reply is not JSON: EOF"
    );
    assert_eq!(
        text("openai", 200, &broken).unwrap_err(),
        "openai reply is not JSON: EOF"
    );
}

#[test]
fn an_object_without_members_states_no_contradiction() {
    let said = Said {
        contradiction: None,
        with: None,
        a: Some("A.".to_string()),
        b: None,
        why: None,
    };
    let v = verdict_from(&said, "entity", "openai", "m", "now");
    assert!(!v.contradiction);
    assert_eq!((v.a.as_str(), v.b.as_str(), v.with.as_str()), ("A.", "", ""));
    assert_eq!((v.term.as_str(), v.judged_at.as_str()), ("entity", "now"));
}
