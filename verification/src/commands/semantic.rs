//! The semantic pass: a model reads each node's lay definition next to the lay
//! definitions of the nodes it links and says whether any pair contradicts.
//!
//! Verdicts are cached under a digest of everything that they depend on, so a
//! rerun with no changes makes no model calls, and a later run only re-judges
//! nodes whose neighbourhood changed. The pass itself makes no calls: it goes
//! on until a node has to be judged, and then gives back which.

use vstd::prelude::*;
use vstd::string::*;
use vstd::utf8::encode_utf8;

use crate::commands::audit::{findings_of, lemma_push_finding, Finding, FindingModel};
use crate::commands::export::node_terms;
use crate::commands::sources::file_of;
use crate::digest::{sha256, sha256_hex};
use crate::json::{
    json_bool_at, json_error, json_fault, json_length_at, json_number, json_quoted, json_string,
    json_text_at, json_written, lemma_list_front, lemma_member_alone, lemma_members_front,
    lemma_quoted_prefix, list_written, members_written, read_bool, read_length, read_text,
    write_json, Json, JsonModel,
};
use crate::markdown::{
    definition, extract_definition, extract_unique_links, files, plain, plain_text, section,
    terms_of, title, unique_links, FileModel, Node, NodeFile,
};
use crate::number::{decimal, decimal_text, hex};
use crate::table::Table;
use crate::text::{
    chars_of, contains_text, find, first_of, head, lemma_first_of, opt_str, opt_text, same, starts,
    strip_trailing, stripped_trailing, tail, text_of, texts,
};

verus! {

/// Default cache location, relative to the ontology directory.
pub const DEFAULT_CACHE: &'static str = "audit/semantic.cache.json";

/// Bumped whenever the prompt changes, so cached verdicts are re-judged.
pub const PROMPT_VERSION: &'static str = "1";

/// The instructions of the model.
pub const SYSTEM_PROMPT: &'static str =
    "You audit an ontology of terms for contradictions. You are given one term's lay definition and the lay definitions of the terms it links to. Decide whether the term's definition contradicts any linked definition: a claim in one that cannot be true if the other is true. Different emphasis, scope, level of detail, or a definition that merely depends on another are not contradictions. Reply with exactly one JSON object and nothing else: {\"contradiction\": true or false, \"with\": \"<slug of the linked term, or empty>\", \"a\": \"<the sentence from the term's definition, quoted verbatim>\", \"b\": \"<the conflicting sentence from the linked definition, quoted verbatim>\", \"why\": \"<one sentence>\"}. When there is no contradiction, set contradiction to false and leave the other fields empty.";

/// How the semantic pass runs.
#[derive(Debug, Clone)]
pub struct SemanticOptions {
    /// `anthropic` or `openai`.
    pub provider: String,
    /// Model id; `None` picks the provider default.
    pub model: Option<String>,
    /// Cache path, relative to the ontology directory unless absolute.
    pub cache: String,
    /// Base URL override; `None` uses the provider's API host.
    pub endpoint: Option<String>,
    /// API key; `None` reads the provider's environment variable.
    pub api_key: Option<String>,
    /// Judge at most this many nodes that are not already cached.
    pub limit: Option<usize>,
    /// Minimum gap between model calls, in milliseconds.
    pub rate_ms: u64,
    /// Per-request timeout, in milliseconds.
    pub timeout_ms: u64,
}

impl Default for SemanticOptions {
    fn default() -> (r: SemanticOptions)
        ensures
            r.provider@ == "anthropic"@,
            r.model is None,
            r.cache@ == DEFAULT_CACHE@,
            r.endpoint is None,
            r.api_key is None,
            r.limit is None,
            r.rate_ms == 500,
            r.timeout_ms == 120_000,
    {
        SemanticOptions {
            provider: "anthropic".to_string(),
            model: None,
            cache: DEFAULT_CACHE.to_string(),
            endpoint: None,
            api_key: None,
            limit: None,
            rate_ms: 500,
            timeout_ms: 120_000,
        }
    }
}

/// One cached verdict.
#[derive(Debug, Clone, PartialEq, Eq)]
pub struct Verdict {
    pub term: String,
    pub provider: String,
    pub model: String,
    pub judged_at: String,
    pub contradiction: bool,
    pub with: String,
    pub a: String,
    pub b: String,
    pub why: String,
}

/// What a verdict says.
pub struct VerdictModel {
    pub term: Seq<char>,
    pub provider: Seq<char>,
    pub model: Seq<char>,
    pub judged_at: Seq<char>,
    pub contradiction: bool,
    pub with: Seq<char>,
    pub a: Seq<char>,
    pub b: Seq<char>,
    pub why: Seq<char>,
}

impl View for Verdict {
    type V = VerdictModel;

    open spec fn view(&self) -> VerdictModel {
        VerdictModel {
            term: self.term@,
            provider: self.provider@,
            model: self.model@,
            judged_at: self.judged_at@,
            contradiction: self.contradiction,
            with: self.with@,
            a: self.a@,
            b: self.b@,
            why: self.why@,
        }
    }
}

/// The cache: content digest to verdict.
pub type Cache = Table<Verdict>;

/// What one pass did, for the operator.
#[derive(Debug, Clone, Copy, PartialEq, Eq, Structural)]
pub struct Stats {
    pub judged: usize,
    pub cached: usize,
    pub calls: usize,
    pub skipped: usize,
}

/// One node with its neighbourhood, the unit the model judges.
#[derive(Debug, Clone)]
pub struct Neighbourhood {
    pub term: String,
    pub definition: String,
    /// The linked terms with their lay definitions.
    pub neighbours: Vec<(String, String)>,
}

/// What a neighbourhood is.
pub struct HoodModel {
    pub term: Seq<char>,
    pub definition: Seq<char>,
    pub neighbours: Seq<(Seq<char>, Seq<char>)>,
}

/// What a list of terms with their definitions is.
pub open spec fn pairs_of(list: Seq<(String, String)>) -> Seq<(Seq<char>, Seq<char>)> {
    Seq::new(list.len(), |i: int| (list[i].0@, list[i].1@))
}

impl View for Neighbourhood {
    type V = HoodModel;

    open spec fn view(&self) -> HoodModel {
        HoodModel {
            term: self.term@,
            definition: self.definition@,
            neighbours: pairs_of(self.neighbours@),
        }
    }
}

/// What a list of neighbourhoods is.
pub open spec fn hoods_of(list: Seq<Neighbourhood>) -> Seq<HoodModel> {
    Seq::new(list.len(), |i: int| list[i]@)
}

// ---------------------------------------------------------------------------
// Neighbourhoods
// ---------------------------------------------------------------------------

/// The lay definition of a text as prose; empty when it has none.
pub open spec fn lay(content: Seq<char>) -> Seq<char> {
    match definition(content) {
        Some(d) => plain(d),
        None => Seq::empty(),
    }
}

/// The lay definition of a term.
pub open spec fn lay_of(all: Seq<FileModel>, term: Seq<char>) -> Seq<char> {
    match file_of(all, term) {
        Some(f) => lay(f.content),
        None => Seq::empty(),
    }
}

/// The Ontology section of a text with a title; empty when it has none.
pub open spec fn ontology_of(content: Seq<char>) -> Seq<char> {
    if title(content) is Some && section(content, "Ontology"@) is Some {
        section(content, "Ontology"@)->Some_0
    } else {
        Seq::empty()
    }
}

/// The terms that the Ontology section of a text links, each once and in
/// order.
pub open spec fn ontology_links(content: Seq<char>) -> Seq<Seq<char>> {
    if ontology_of(content).len() > 0 {
        unique_links(ontology_of(content))
    } else {
        Seq::empty()
    }
}

/// The neighbours among linked terms: other nodes that have a lay definition.
pub open spec fn neighbours_of(
    all: Seq<FileModel>,
    term: Seq<char>,
    links: Seq<Seq<char>>,
) -> Seq<(Seq<char>, Seq<char>)>
    decreases links.len(),
{
    if links.len() == 0 {
        Seq::empty()
    } else {
        let front = neighbours_of(all, term, links.drop_last());
        let t = links.last();
        if t != term && terms_of(all).contains(t) && lay_of(all, t).len() > 0 {
            front.push((t, lay_of(all, t)))
        } else {
            front
        }
    }
}

/// A node with its neighbourhood.
pub open spec fn hood_of(all: Seq<FileModel>, f: FileModel) -> HoodModel {
    HoodModel {
        term: f.term,
        definition: lay_of(all, f.term),
        neighbours: neighbours_of(all, f.term, ontology_links(f.content)),
    }
}

/// Every node with its neighbourhood.
pub open spec fn hoods_in(all: Seq<FileModel>) -> Seq<HoodModel> {
    Seq::new(all.len(), |i: int| hood_of(all, all[i]))
}

fn lay_text(content: &str) -> (r: String)
    ensures
        r@ == lay(content@),
{
    match extract_definition(content) {
        Some(d) => plain_text(d.as_str()),
        None => String::new(),
    }
}

fn lay_definition(all: &Vec<NodeFile>, lays: &Vec<String>, term: &str) -> (r: String)
    requires
        lays@.len() == all@.len(),
        forall|i: int| 0 <= i < all@.len() ==> (#[trigger] lays@[i])@ == lay(all@[i].content@),
    ensures
        r@ == lay_of(files(all@), term@),
{
    let ghost every = files(all@);
    assert(every.skip(0) == every);
    for i in 0..all.len()
        invariant
            every == files(all@),
            lays@.len() == all@.len(),
            forall|k: int| 0 <= k < all@.len() ==> (#[trigger] lays@[k])@ == lay(all@[k].content@),
            file_of(every, term@) == file_of(every.skip(i as int), term@),
    {
        assert(every.skip(i as int)[0] == all@[i as int]@);
        assert(every.skip(i as int).skip(1) == every.skip(i + 1));
        if same(all[i].term.as_str(), term) {
            return lays[i].clone();
        }
    }
    assert(every.skip(all@.len() as int) =~= Seq::<FileModel>::empty());
    String::new()
}

fn find_neighbours(
    all: &Vec<NodeFile>,
    lays: &Vec<String>,
    known: &Vec<String>,
    term: &str,
    links: &Vec<String>,
) -> (r: Vec<(String, String)>)
    requires
        lays@.len() == all@.len(),
        forall|i: int| 0 <= i < all@.len() ==> (#[trigger] lays@[i])@ == lay(all@[i].content@),
        texts(known@) == terms_of(files(all@)),
    ensures
        pairs_of(r@) == neighbours_of(files(all@), term@, texts(links@)),
{
    let ghost list = texts(links@);
    let ghost every = files(all@);
    let mut r: Vec<(String, String)> = Vec::new();
    assert(pairs_of(r@) =~= neighbours_of(every, term@, list.take(0)));
    for i in 0..links.len()
        invariant
            list == texts(links@),
            every == files(all@),
            lays@.len() == all@.len(),
            forall|k: int| 0 <= k < all@.len() ==> (#[trigger] lays@[k])@ == lay(all@[k].content@),
            texts(known@) == terms_of(every),
            pairs_of(r@) == neighbours_of(every, term@, list.take(i as int)),
    {
        assert(list.take(i + 1).drop_last() == list.take(i as int));
        assert(list.take(i + 1).last() == links@[i as int]@);
        let t = &links[i];
        if !same(t.as_str(), term) && contains_text(known, t.as_str()) {
            let d = lay_definition(all, lays, t.as_str());
            if d.as_str().unicode_len() > 0 {
                let ghost before = r@;
                r.push((t.clone(), d));
                assert(pairs_of(r@) =~= pairs_of(before).push((t@, d@)));
            }
        }
    }
    assert(list.take(links@.len() as int) == list);
    r
}

/// Every node with its lay definition and its Ontology-section neighbours'
/// lay definitions, in the order of the nodes.
pub fn neighbourhoods(all: &Vec<NodeFile>) -> (r: Vec<Neighbourhood>)
    ensures
        hoods_of(r@) == hoods_in(files(all@)),
{
    let ghost every = files(all@);
    let ghost hoods = hoods_in(every);
    let known = node_terms(all);
    let mut lays: Vec<String> = Vec::new();
    for i in 0..all.len()
        invariant
            lays@.len() == i,
            forall|k: int| 0 <= k < i ==> (#[trigger] lays@[k])@ == lay(all@[k].content@),
    {
        lays.push(lay_text(all[i].content.as_str()));
    }
    let mut r: Vec<Neighbourhood> = Vec::new();
    assert(hoods_of(r@) =~= hoods.take(0));
    for i in 0..all.len()
        invariant
            every == files(all@),
            hoods == hoods_in(every),
            texts(known@) == terms_of(every),
            lays@.len() == all@.len(),
            forall|k: int| 0 <= k < all@.len() ==> (#[trigger] lays@[k])@ == lay(all@[k].content@),
            hoods_of(r@) == hoods.take(i as int),
    {
        let f = &all[i];
        assert(every[i as int] == f@);
        let ontology = match Node::parse(f.content.as_str()) {
            Ok(node) => match node.ontology {
                Some(text) => text,
                None => String::new(),
            },
            Err(_) => String::new(),
        };
        assert(ontology@ =~= ontology_of(f.content@));
        let links = if ontology.as_str().unicode_len() > 0 {
            extract_unique_links(ontology.as_str())
        } else {
            Vec::new()
        };
        assert(texts(links@) =~= ontology_links(f.content@));
        let hood = Neighbourhood {
            term: f.term.clone(),
            definition: lay_definition(all, &lays, f.term.as_str()),
            neighbours: find_neighbours(all, &lays, &known, f.term.as_str(), &links),
        };
        let ghost before = r@;
        proof {
            crate::text::lemma_take_next(hoods, i as int);
        }
        r.push(hood);
        assert(hoods_of(r@) =~= hoods_of(before).push(hood@));
    }
    assert(hoods.take(all@.len() as int) == hoods);
    r
}

// ---------------------------------------------------------------------------
// Keys and prompts
// ---------------------------------------------------------------------------

/// A pair of texts.
pub open spec fn pair_json(p: (Seq<char>, Seq<char>)) -> JsonModel {
    JsonModel::List(seq![JsonModel::Text(p.0), JsonModel::Text(p.1)])
}

/// Everything a verdict depends on.
pub open spec fn payload(provider: Seq<char>, model: Seq<char>, hood: HoodModel) -> JsonModel {
    JsonModel::Object(
        seq![
            ("definition"@, JsonModel::Text(hood.definition)),
            ("model"@, JsonModel::Text(model)),
            (
                "neighbours"@,
                JsonModel::List(
                    Seq::new(hood.neighbours.len(), |i: int| pair_json(hood.neighbours[i])),
                ),
            ),
            ("provider"@, JsonModel::Text(provider)),
            ("term"@, JsonModel::Text(hood.term)),
            ("v"@, JsonModel::Text(PROMPT_VERSION@)),
        ],
    )
}

/// What a verdict is kept under, which is the digest of everything it depends
/// on.
pub open spec fn key_of(provider: Seq<char>, model: Seq<char>, hood: HoodModel) -> Seq<char> {
    hex(sha256(encode_utf8(json_written(payload(provider, model, hood)))))
}

fn text_member(list: &mut Vec<(String, Json)>, name: &str, value: &str)
    ensures
        final(list)@.len() == old(list)@.len() + 1,
        final(list)@.last().0@ == name@,
        final(list)@.last().1@ == JsonModel::Text(value@),
        forall|i: int| 0 <= i < old(list)@.len() ==> (#[trigger] final(list)@[i]) == old(list)@[i],
{
    list.push((name.to_string(), json_string(value)));
}

fn pair_value(a: &str, b: &str) -> (r: Json)
    ensures
        r@ == pair_json((a@, b@)),
{
    let mut list: Vec<Json> = Vec::new();
    list.push(json_string(a));
    list.push(json_string(b));
    let r = Json::List(list);
    assert(r@->List_0 =~= pair_json((a@, b@))->List_0);
    r
}

fn pairs_value(pairs: &Vec<(String, String)>) -> (r: Json)
    ensures
        r@ == JsonModel::List(
            Seq::new(pairs_of(pairs@).len(), |i: int| pair_json(pairs_of(pairs@)[i])),
        ),
{
    let ghost all = Seq::new(pairs_of(pairs@).len(), |i: int| pair_json(pairs_of(pairs@)[i]));
    let mut list: Vec<Json> = Vec::new();
    for i in 0..pairs.len()
        invariant
            all == Seq::new(pairs_of(pairs@).len(), |i: int| pair_json(pairs_of(pairs@)[i])),
            list@.len() == i,
            forall|k: int| 0 <= k < i ==> (#[trigger] list@[k])@ == all[k],
    {
        list.push(pair_value(pairs[i].0.as_str(), pairs[i].1.as_str()));
    }
    let r = Json::List(list);
    assert(r@->List_0 =~= all);
    r
}

/// SHA-256 over everything the verdict depends on.
pub fn cache_key(provider: &str, model: &str, hood: &Neighbourhood) -> (r: String)
    ensures
        r@ == key_of(provider@, model@, hood@),
{
    let mut members: Vec<(String, Json)> = Vec::new();
    text_member(&mut members, "definition", hood.definition.as_str());
    text_member(&mut members, "model", model);
    let pairs = pairs_value(&hood.neighbours);
    members.push(("neighbours".to_string(), pairs));
    text_member(&mut members, "provider", provider);
    text_member(&mut members, "term", hood.term.as_str());
    text_member(&mut members, "v", PROMPT_VERSION);
    let value = Json::Object(members);
    assert(value@->Object_0 =~= payload(provider@, model@, hood@)->Object_0);
    let text = write_json(&value);
    sha256_hex(text.as_str())
}

/// The lines for the first `n` linked terms of a prompt.
pub open spec fn prompt_lines(pairs: Seq<(Seq<char>, Seq<char>)>, n: nat) -> Seq<char>
    decreases n,
{
    if n == 0 {
        Seq::empty()
    } else {
        prompt_lines(pairs, (n - 1) as nat) + "- `"@ + pairs[n - 1].0 + "`: "@ + pairs[n - 1].1
            + "\n"@
    }
}

/// The prompt for a neighbourhood.
pub open spec fn prompt(hood: HoodModel) -> Seq<char> {
    "Term `"@ + hood.term + "`: "@ + hood.definition + "\n\nLinked terms:\n"@ + prompt_lines(
        hood.neighbours,
        hood.neighbours.len(),
    )
}

/// The prompt for a neighbourhood.
pub fn user_prompt(hood: &Neighbourhood) -> (r: String)
    ensures
        r@ == prompt(hood@),
{
    let mut lines = String::new();
    for i in 0..hood.neighbours.len()
        invariant
            lines@ == prompt_lines(hood@.neighbours, i as nat),
    {
        assert(hood@.neighbours[i as int] == (
            hood.neighbours@[i as int].0@,
            hood.neighbours@[i as int].1@,
        ));
        lines.append("- `");
        lines.append(hood.neighbours[i].0.as_str());
        lines.append("`: ");
        lines.append(hood.neighbours[i].1.as_str());
        lines.append("\n");
    }
    let mut r = "Term `".to_string();
    r.append(hood.term.as_str());
    r.append("`: ");
    r.append(hood.definition.as_str());
    r.append("\n\nLinked terms:\n");
    r.append(lines.as_str());
    r
}

// ---------------------------------------------------------------------------
// Requests
// ---------------------------------------------------------------------------

/// The default model of a provider; nothing where the model has to be named.
pub open spec fn model_by_default(provider: Seq<char>) -> Option<Seq<char>> {
    if provider == "openai"@ {
        Some("gpt-5"@)
    } else {
        None
    }
}

/// The default model of a provider; nothing where the model has to be named.
pub fn default_model(provider: &str) -> (r: Option<&'static str>)
    ensures
        opt_str(r) == model_by_default(provider@),
{
    if same(provider, "openai") {
        Some("gpt-5")
    } else {
        None
    }
}

/// The model to ask: the one that was named, or the default of the provider.
pub fn chosen_model(opts: &SemanticOptions) -> (r: Option<String>)
    ensures
        opt_text(r) == (match opts.model {
            Some(m) => Some(m@),
            None => model_by_default(opts.provider@),
        }),
{
    match &opts.model {
        Some(m) => Some(m.clone()),
        None => match default_model(opts.provider.as_str()) {
            Some(m) => Some(m.to_string()),
            None => None,
        },
    }
}

/// A message of a request.
pub open spec fn message_json(role: Seq<char>, content: Seq<char>) -> JsonModel {
    JsonModel::Object(
        seq![("content"@, JsonModel::Text(content)), ("role"@, JsonModel::Text(role))],
    )
}

/// The body of a Messages API request: one user turn, the instructions as
/// `system`.
pub open spec fn anthropic_json(model: Seq<char>, hood: HoodModel) -> JsonModel {
    JsonModel::Object(
        seq![
            ("max_tokens"@, JsonModel::Number(1024)),
            ("messages"@, JsonModel::List(seq![message_json("user"@, prompt(hood))])),
            ("model"@, JsonModel::Text(model)),
            ("system"@, JsonModel::Text(SYSTEM_PROMPT@)),
        ],
    )
}

/// The body of a Chat Completions request: system and user, JSON object mode.
pub open spec fn openai_json(model: Seq<char>, hood: HoodModel) -> JsonModel {
    JsonModel::Object(
        seq![
            (
                "messages"@,
                JsonModel::List(
                    seq![
                        message_json("system"@, SYSTEM_PROMPT@),
                        message_json("user"@, prompt(hood)),
                    ],
                ),
            ),
            ("model"@, JsonModel::Text(model)),
            (
                "response_format"@,
                JsonModel::Object(seq![("type"@, JsonModel::Text("json_object"@))]),
            ),
        ],
    )
}

fn message_value(role: &str, content: &str) -> (r: Json)
    ensures
        r@ == message_json(role@, content@),
{
    let mut m: Vec<(String, Json)> = Vec::new();
    text_member(&mut m, "content", content);
    text_member(&mut m, "role", role);
    let r = Json::Object(m);
    assert(r@->Object_0 =~= message_json(role@, content@)->Object_0);
    r
}

/// The body of a request to a provider.
pub open spec fn request_json(
    provider: Seq<char>,
    model: Seq<char>,
    hood: HoodModel,
) -> JsonModel {
    if provider == "anthropic"@ {
        anthropic_json(model, hood)
    } else {
        openai_json(model, hood)
    }
}

/// The body of a request to a provider.
pub fn request_body(provider: &str, model: &str, hood: &Neighbourhood) -> (r: String)
    ensures
        r@ == json_written(request_json(provider@, model@, hood@)),
{
    let text = user_prompt(hood);
    if same(provider, "anthropic") {
        let mut messages: Vec<Json> = Vec::new();
        messages.push(message_value("user", text.as_str()));
        let list = Json::List(messages);
        assert(list@->List_0 =~= seq![message_json("user"@, prompt(hood@))]);
        let mut m: Vec<(String, Json)> = Vec::new();
        m.push(("max_tokens".to_string(), json_number(1024)));
        m.push(("messages".to_string(), list));
        text_member(&mut m, "model", model);
        text_member(&mut m, "system", SYSTEM_PROMPT);
        let body = Json::Object(m);
        assert(body@->Object_0 =~= anthropic_json(model@, hood@)->Object_0);
        write_json(&body)
    } else {
        let mut messages: Vec<Json> = Vec::new();
        messages.push(message_value("system", SYSTEM_PROMPT));
        messages.push(message_value("user", text.as_str()));
        let list = Json::List(messages);
        assert(list@->List_0 =~= seq![
            message_json("system"@, SYSTEM_PROMPT@),
            message_json("user"@, prompt(hood@)),
        ]);
        let mut f: Vec<(String, Json)> = Vec::new();
        text_member(&mut f, "type", "json_object");
        let format = Json::Object(f);
        assert(format@->Object_0 =~= seq![("type"@, JsonModel::Text("json_object"@))]);
        let mut m: Vec<(String, Json)> = Vec::new();
        m.push(("messages".to_string(), list));
        text_member(&mut m, "model", model);
        m.push(("response_format".to_string(), format));
        let body = Json::Object(m);
        assert(body@->Object_0 =~= openai_json(model@, hood@)->Object_0);
        write_json(&body)
    }
}

/// The environment variable with the key of a provider and the host of its
/// API.
pub open spec fn provider_access(provider: Seq<char>) -> Option<(Seq<char>, Seq<char>)> {
    if provider == "anthropic"@ {
        Some(("ANTHROPIC_API_KEY"@, "https://api.anthropic.com"@))
    } else if provider == "openai"@ {
        Some(("OPENAI_API_KEY"@, "https://api.openai.com"@))
    } else {
        None
    }
}

/// The error for a provider that is not known.
pub open spec fn unknown_provider(provider: Seq<char>) -> Seq<char> {
    "unknown provider '"@ + provider + "' (expected anthropic or openai)"@
}

/// The error for a key that is not set.
pub open spec fn missing_key(variable: Seq<char>, provider: Seq<char>) -> Seq<char> {
    variable + " is not set; the semantic pass needs a "@ + provider + " key"@
}

/// The environment variable with the key of a provider.
pub fn key_variable(provider: &str) -> (r: Result<&'static str, String>)
    ensures
        match r {
            Ok(v) => provider_access(provider@) is Some && v@ == provider_access(
                provider@,
            )->Some_0.0,
            Err(e) => provider_access(provider@) is None && e@ == unknown_provider(provider@),
        },
{
    if same(provider, "anthropic") {
        Ok("ANTHROPIC_API_KEY")
    } else if same(provider, "openai") {
        Ok("OPENAI_API_KEY")
    } else {
        let mut e = "unknown provider '".to_string();
        e.append(provider);
        e.append("' (expected anthropic or openai)");
        Err(e)
    }
}

/// How a provider is reached.
#[derive(Debug, Clone)]
pub struct Access {
    pub url: String,
    pub key: String,
}

/// The URL and the key of a provider. `api_key` is the key that was given and
/// `variable` the value of the provider's environment variable; `endpoint`
/// overrides the host.
pub open spec fn access_of(
    provider: Seq<char>,
    endpoint: Option<Seq<char>>,
    api_key: Option<Seq<char>>,
    variable: Option<Seq<char>>,
) -> Result<(Seq<char>, Seq<char>), Seq<char>> {
    match provider_access(provider) {
        None => Err(unknown_provider(provider)),
        Some((name, host)) => {
            let base = strip_trailing(
                match endpoint {
                    Some(e) => e,
                    None => host,
                },
                "/"@,
            );
            let path = if provider == "anthropic"@ {
                "/v1/messages"@
            } else {
                "/v1/chat/completions"@
            };
            match (api_key, variable) {
                (Some(key), _) => Ok((base + path, key)),
                (None, Some(key)) => Ok((base + path, key)),
                (None, None) => Err(missing_key(name, provider)),
            }
        },
    }
}

/// How a provider is reached.
pub fn access(opts: &SemanticOptions, variable: Option<String>) -> (r: Result<Access, String>)
    ensures
        match r {
            Ok(a) => access_of(
                opts.provider@,
                opt_text(opts.endpoint),
                opt_text(opts.api_key),
                opt_text(variable),
            ) == Ok::<(Seq<char>, Seq<char>), Seq<char>>((a.url@, a.key@)),
            Err(e) => access_of(
                opts.provider@,
                opt_text(opts.endpoint),
                opt_text(opts.api_key),
                opt_text(variable),
            ) == Err::<(Seq<char>, Seq<char>), Seq<char>>(e@),
        },
{
    let provider = opts.provider.as_str();
    let name = match key_variable(provider) {
        Ok(name) => name,
        Err(e) => {
            return Err(e);
        },
    };
    let anthropic = same(provider, "anthropic");
    let host = match &opts.endpoint {
        Some(e) => chars_of(e.as_str()),
        None => if anthropic {
            chars_of("https://api.anthropic.com")
        } else {
            chars_of("https://api.openai.com")
        },
    };
    let mut url = text_of(stripped_trailing(host.as_slice(), "/"));
    url.append(
        if anthropic {
            "/v1/messages"
        } else {
            "/v1/chat/completions"
        },
    );
    match &opts.api_key {
        Some(key) => Ok(Access { url, key: key.clone() }),
        None => match variable {
            Some(key) => Ok(Access { url, key }),
            None => {
                let mut e = name.to_string();
                e.append(" is not set; the semantic pass needs a ");
                e.append(provider);
                e.append(" key");
                Err(e)
            },
        },
    }
}

// ---------------------------------------------------------------------------
// Replies
// ---------------------------------------------------------------------------

/// The first 160 characters of a text, with an ellipsis when there are more.
pub open spec fn shortened(s: Seq<char>) -> Seq<char> {
    if s.len() > 160 {
        s.take(160).push('…')
    } else {
        s
    }
}

fn shorten(s: &str) -> (r: String)
    ensures
        r@ == shortened(s@),
{
    let cs = chars_of(s);
    if cs.len() > 160 {
        let mut r = text_of(head(cs.as_slice(), 160));
        r.push('…');
        r
    } else {
        text_of(cs.as_slice())
    }
}

/// How deep in braces a place in a text is, and whether it is inside a string
/// and there behind a backslash.
pub struct Nesting {
    pub depth: int,
    pub quoted: bool,
    pub escaped: bool,
}

/// The nesting behind one more character. Braces inside strings do not count.
pub open spec fn nest(at: Nesting, c: char) -> Nesting {
    if at.quoted {
        if at.escaped {
            Nesting { escaped: false, ..at }
        } else if c == '\\' {
            Nesting { escaped: true, ..at }
        } else if c == '"' {
            Nesting { quoted: false, ..at }
        } else {
            at
        }
    } else if c == '"' {
        Nesting { quoted: true, ..at }
    } else if c == '{' {
        Nesting { depth: at.depth + 1, ..at }
    } else if c == '}' {
        Nesting { depth: at.depth - 1, ..at }
    } else {
        at
    }
}

/// The nesting behind the first `n` characters of a text.
pub open spec fn nesting(s: Seq<char>, n: nat) -> Nesting
    decreases n,
{
    if n == 0 {
        Nesting { depth: 0, quoted: false, escaped: false }
    } else {
        nest(nesting(s, (n - 1) as nat), s[n - 1])
    }
}

/// The least number of characters, `n` or more, behind which every brace of a
/// text is closed.
pub open spec fn closed_from(s: Seq<char>, n: nat) -> Option<nat>
    decreases s.len() + 1 - n,
{
    if n > s.len() {
        None
    } else if nesting(s, n).depth == 0 {
        Some(n)
    } else {
        closed_from(s, n + 1)
    }
}

/// The first `{ … }` of a text: from its first `{` to the `}` that closes it.
pub open spec fn braced(text: Seq<char>) -> Option<Seq<char>> {
    match first_of(text, "{"@) {
        Some(start) => match closed_from(text.skip(start), 1) {
            Some(n) => Some(text.skip(start).take(n as int)),
            None => None,
        },
        None => None,
    }
}

/// The first object in a model reply: the first `{ … }`, when it is JSON.
pub open spec fn object_in(text: Seq<char>) -> Option<Seq<char>> {
    match braced(text) {
        Some(part) => if json_fault(part) is None {
            Some(part)
        } else {
            None
        },
        None => None,
    }
}

/// The first `{ … }` of a text: from its first `{` to the `}` that closes it.
pub fn braced_part(text: &str) -> (r: Option<String>)
    ensures
        opt_text(r) == braced(text@),
{
    let cs = chars_of(text);
    let start: usize = match find(cs.as_slice(), "{") {
        None => {
            return None;
        },
        Some(start) => start,
    };
    let rest = tail(cs.as_slice(), start);
    proof {
        reveal_strlit("{");
        lemma_first_of(cs@, "{"@);
        assert("{"@[0] == '{');
        assert(rest@[0] == rest@.take(1)[0]);
        reveal_with_fuel(nesting, 2);
    }
    let mut depth: usize = 1;
    let mut quoted = false;
    let mut escaped = false;
    for i in 1..rest.len()
        invariant
            0 < rest@.len(),
            depth <= i,
            nesting(rest@, i as nat) == (Nesting { depth: depth as int, quoted, escaped }),
            depth > 0,
            closed_from(rest@, 1) == closed_from(rest@, i as nat),
            braced(text@) == (match closed_from(rest@, 1) {
                Some(n) => Some(rest@.take(n as int)),
                None => None,
            }),
    {
        let c = rest[i];
        if quoted {
            if escaped {
                escaped = false;
            } else if c == '\\' {
                escaped = true;
            } else if c == '"' {
                quoted = false;
            }
        } else if c == '"' {
            quoted = true;
        } else if c == '{' {
            depth = depth + 1;
        } else if c == '}' {
            depth = depth - 1;
            if depth == 0 {
                assert(closed_from(rest@, (i + 1) as nat) == Some((i + 1) as nat));
                return Some(text_of(head(rest, i + 1)));
            }
        }
    }
    assert(closed_from(rest@, rest@.len() + 1) is None);
    None
}

/// The first `{ … }` object in a model reply as JSON text, tolerant of prose
/// around it.
pub fn extract_json(text: &str) -> (r: Option<String>)
    ensures
        opt_text(r) == object_in(text@),
{
    match braced_part(text) {
        None => None,
        Some(part) => match json_error(part.as_str()) {
            None => Some(part),
            Some(_) => None,
        },
    }
}

proof fn lemma_nesting_alone(s: Seq<char>, more: Seq<char>, n: nat)
    requires
        n <= s.len(),
    ensures
        nesting(s + more, n) == nesting(s, n),
    decreases n,
{
    if n > 0 {
        lemma_nesting_alone(s, more, (n - 1) as nat);
        assert((s + more)[n - 1] == s[n - 1]);
    }
}

proof fn lemma_closed_alone(s: Seq<char>, more: Seq<char>, n: nat)
    requires
        closed_from(s, n) is Some,
    ensures
        closed_from(s + more, n) == closed_from(s, n),
        n <= closed_from(s, n)->Some_0 <= s.len(),
    decreases s.len() + 1 - n,
{
    lemma_nesting_alone(s, more, n);
    if nesting(s, n).depth != 0 {
        lemma_closed_alone(s, more, n + 1);
    }
}

proof fn lemma_brace_behind(before: Seq<char>, text: Seq<char>)
    requires
        !before.contains('{'),
        first_of(text, "{"@) is Some,
    ensures
        first_of(before + text, "{"@) == Some(before.len() + first_of(text, "{"@)->Some_0),
    decreases before.len(),
{
    let all = before + text;
    if before.len() == 0 {
        assert(all =~= text);
    } else {
        reveal_strlit("{");
        assert(before[0] != '{');
        if starts(all, "{"@) {
            assert(all.take(1)[0] == all[0]);
        }
        let rest = before.skip(1);
        assert forall|i: int| 0 <= i < rest.len() implies rest[i] != '{' by {
            assert(rest[i] == before[i + 1]);
        }
        lemma_brace_behind(rest, text);
        assert(all.skip(1) =~= rest + text);
    }
}

/// The first object of a reply is found whatever stands around it: prose
/// before it that holds no `{`, and anything behind it.
pub proof fn prose_around_an_object_is_passed_over(
    before: Seq<char>,
    text: Seq<char>,
    behind: Seq<char>,
)
    requires
        !before.contains('{'),
        braced(text) is Some,
    ensures
        braced(before + text + behind) == braced(text),
        object_in(before + text + behind) == object_in(text),
{
    let start = first_of(text, "{"@)->Some_0;
    let s = text.skip(start);
    lemma_first_of(text, "{"@);
    lemma_closed_alone(s, behind, 1);
    let n = closed_from(s, 1)->Some_0;
    lemma_first_behind(text, behind);
    lemma_brace_behind(before, text + behind);
    let all = before + text + behind;
    assert(all =~= before + (text + behind));
    assert(all.skip(before.len() + start) =~= s + behind);
    assert((s + behind).take(n as int) =~= s.take(n as int));
}

proof fn lemma_first_behind(text: Seq<char>, behind: Seq<char>)
    requires
        first_of(text, "{"@) is Some,
    ensures
        first_of(text + behind, "{"@) == first_of(text, "{"@),
    decreases text.len(),
{
    reveal_strlit("{");
    let all = text + behind;
    if text.len() > 0 {
        assert(starts(all, "{"@) == starts(text, "{"@)) by {
            assert(all.take(1) =~= text.take(1));
        }
        if !starts(text, "{"@) {
            lemma_first_behind(text.skip(1), behind);
            assert(all.skip(1) =~= text.skip(1) + behind);
        }
    }
}

/// A string that may be missing; empty when it is.
pub open spec fn or_empty(o: Option<Seq<char>>) -> Seq<char> {
    match o {
        Some(text) => text,
        None => Seq::empty(),
    }
}

fn text_or_empty(o: &Option<String>) -> (r: String)
    ensures
        r@ == or_empty(opt_text(*o)),
{
    match o {
        Some(text) => text.clone(),
        None => String::new(),
    }
}

/// What an object in a model reply holds of a verdict.
#[derive(Debug, Clone)]
pub struct Said {
    pub contradiction: Option<bool>,
    pub with: Option<String>,
    pub a: Option<String>,
    pub b: Option<String>,
    pub why: Option<String>,
}

/// What an object holds.
pub struct SaidModel {
    pub contradiction: Option<bool>,
    pub with: Option<Seq<char>>,
    pub a: Option<Seq<char>>,
    pub b: Option<Seq<char>>,
    pub why: Option<Seq<char>>,
}

impl View for Said {
    type V = SaidModel;

    open spec fn view(&self) -> SaidModel {
        SaidModel {
            contradiction: self.contradiction,
            with: opt_text(self.with),
            a: opt_text(self.a),
            b: opt_text(self.b),
            why: opt_text(self.why),
        }
    }
}

/// What a JSON object holds of a verdict.
pub open spec fn said_in(json: Seq<char>) -> SaidModel {
    SaidModel {
        contradiction: json_bool_at(json, "/contradiction"@),
        with: json_text_at(json, "/with"@),
        a: json_text_at(json, "/a"@),
        b: json_text_at(json, "/b"@),
        why: json_text_at(json, "/why"@),
    }
}

fn read_said(json: &str) -> (r: Said)
    ensures
        r@ == said_in(json@),
{
    Said {
        contradiction: read_bool(json, "/contradiction"),
        with: read_text(json, "/with"),
        a: read_text(json, "/a"),
        b: read_text(json, "/b"),
        why: read_text(json, "/why"),
    }
}

/// The verdict that an object states: no contradiction unless it says so, and
/// empty texts for those it lacks.
pub open spec fn verdict_in(
    said: SaidModel,
    term: Seq<char>,
    provider: Seq<char>,
    model: Seq<char>,
    judged_at: Seq<char>,
) -> VerdictModel {
    VerdictModel {
        term,
        provider,
        model,
        judged_at,
        contradiction: said.contradiction == Some(true),
        with: or_empty(said.with),
        a: or_empty(said.a),
        b: or_empty(said.b),
        why: or_empty(said.why),
    }
}

/// The verdict that an object states.
pub fn verdict_from(said: &Said, term: &str, provider: &str, model: &str, judged_at: &str) -> (r:
    Verdict)
    ensures
        r@ == verdict_in(said@, term@, provider@, model@, judged_at@),
{
    let contradiction = match said.contradiction {
        Some(b) => b,
        None => false,
    };
    Verdict {
        term: term.to_string(),
        provider: provider.to_string(),
        model: model.to_string(),
        judged_at: judged_at.to_string(),
        contradiction,
        with: text_or_empty(&said.with),
        a: text_or_empty(&said.a),
        b: text_or_empty(&said.b),
        why: text_or_empty(&said.why),
    }
}

/// The error for a reply without an object.
pub open spec fn no_object(term: Seq<char>, text: Seq<char>) -> Seq<char> {
    "model reply for `"@ + term + "` carried no JSON object: "@ + shortened(text)
}

/// The verdict of a model's reply.
pub open spec fn verdict_of_reply(
    text: Seq<char>,
    term: Seq<char>,
    provider: Seq<char>,
    model: Seq<char>,
    judged_at: Seq<char>,
) -> Result<VerdictModel, Seq<char>> {
    match object_in(text) {
        None => Err(no_object(term, text)),
        Some(json) => Ok(verdict_in(said_in(json), term, provider, model, judged_at)),
    }
}

/// The verdict of a model's reply.
pub fn judge_reply(
    text: &str,
    term: &str,
    provider: &str,
    model: &str,
    judged_at: &str,
) -> (r: Result<Verdict, String>)
    ensures
        match r {
            Ok(v) => verdict_of_reply(text@, term@, provider@, model@, judged_at@) == Ok::<
                VerdictModel,
                Seq<char>,
            >(v@),
            Err(e) => verdict_of_reply(text@, term@, provider@, model@, judged_at@) == Err::<
                VerdictModel,
                Seq<char>,
            >(e@),
        },
{
    match extract_json(text) {
        None => {
            let mut e = "model reply for `".to_string();
            e.append(term);
            e.append("` carried no JSON object: ");
            e.append(shorten(text).as_str());
            Err(e)
        },
        Some(json) => {
            let said = read_said(json.as_str());
            Ok(verdict_from(&said, term, provider, model, judged_at))
        },
    }
}

/// A content block of a reply: its type and its text.
#[derive(Debug, Clone)]
pub struct Block {
    pub form: Option<String>,
    pub text: Option<String>,
}

/// What a content block holds.
pub struct BlockModel {
    pub form: Option<Seq<char>>,
    pub text: Option<Seq<char>>,
}

impl View for Block {
    type V = BlockModel;

    open spec fn view(&self) -> BlockModel {
        BlockModel { form: opt_text(self.form), text: opt_text(self.text) }
    }
}

/// The models of a list of content blocks.
pub open spec fn blocks_of(blocks: Seq<Block>) -> Seq<BlockModel> {
    Seq::new(blocks.len(), |i: int| blocks[i]@)
}

/// What the pass reads of a provider's reply.
#[derive(Debug, Clone)]
pub struct ReplyParts {
    /// Why the reply is not JSON.
    pub fault: Option<String>,
    pub stop_reason: Option<String>,
    /// The category of a refusal.
    pub category: Option<String>,
    /// The content blocks, when there is a list of them.
    pub blocks: Option<Vec<Block>>,
    /// The text of the first choice.
    pub choice: Option<String>,
}

/// What a reply holds.
pub struct PartsModel {
    pub fault: Option<Seq<char>>,
    pub stop_reason: Option<Seq<char>>,
    pub category: Option<Seq<char>>,
    pub blocks: Option<Seq<BlockModel>>,
    pub choice: Option<Seq<char>>,
}

impl View for ReplyParts {
    type V = PartsModel;

    open spec fn view(&self) -> PartsModel {
        PartsModel {
            fault: opt_text(self.fault),
            stop_reason: opt_text(self.stop_reason),
            category: opt_text(self.category),
            blocks: match self.blocks {
                Some(blocks) => Some(blocks_of(blocks@)),
                None => None,
            },
            choice: opt_text(self.choice),
        }
    }
}

/// The pointer to a member of a content block.
pub open spec fn block_pointer(i: nat, name: Seq<char>) -> Seq<char> {
    "/content/"@ + decimal(i) + name
}

/// The content block of a reply at a place.
pub open spec fn block_at(body: Seq<char>, i: nat) -> BlockModel {
    BlockModel {
        form: json_text_at(body, block_pointer(i, "/type"@)),
        text: json_text_at(body, block_pointer(i, "/text"@)),
    }
}

/// What a reply holds of what the pass reads.
pub open spec fn parts_of(body: Seq<char>) -> PartsModel {
    PartsModel {
        fault: json_fault(body),
        stop_reason: json_text_at(body, "/stop_reason"@),
        category: json_text_at(body, "/stop_details/category"@),
        blocks: match json_length_at(body, "/content"@) {
            Some(n) => Some(Seq::new(n, |i: int| block_at(body, i as nat))),
            None => None,
        },
        choice: if json_length_at(body, "/choices"@) is Some {
            json_text_at(body, "/choices/0/message/content"@)
        } else {
            None
        },
    }
}

fn read_block(body: &str, i: usize) -> (r: Block)
    ensures
        r@ == block_at(body@, i as nat),
{
    let mut pointer = "/content/".to_string();
    pointer.append(decimal_text(i as u64).as_str());
    let mut form = pointer.clone();
    form.append("/type");
    pointer.append("/text");
    Block { form: read_text(body, form.as_str()), text: read_text(body, pointer.as_str()) }
}

fn read_parts(body: &str) -> (r: ReplyParts)
    ensures
        r@ == parts_of(body@),
{
    let blocks = match read_length(body, "/content") {
        Some(n) => {
            let mut list: Vec<Block> = Vec::new();
            for i in 0..n
                invariant
                    blocks_of(list@) == Seq::new(i as nat, |k: int| block_at(body@, k as nat)),
            {
                let block = read_block(body, i);
                let ghost before = list@;
                list.push(block);
                assert(blocks_of(list@) =~= blocks_of(before).push(block@));
            }
            Some(list)
        },
        None => None,
    };
    let choice = if read_length(body, "/choices").is_some() {
        read_text(body, "/choices/0/message/content")
    } else {
        None
    };
    ReplyParts {
        fault: json_error(body),
        stop_reason: read_text(body, "/stop_reason"),
        category: read_text(body, "/stop_details/category"),
        blocks,
        choice,
    }
}

/// The text of content blocks: that of those of type `text`, one after the
/// other.
pub open spec fn blocks_text(blocks: Seq<BlockModel>) -> Seq<char>
    decreases blocks.len(),
{
    if blocks.len() == 0 {
        Seq::empty()
    } else if blocks.last().form == Some("text"@) {
        blocks_text(blocks.drop_last()) + or_empty(blocks.last().text)
    } else {
        blocks_text(blocks.drop_last())
    }
}

/// The text of a Messages API reply.
pub open spec fn anthropic_reply(
    status: u16,
    body: Seq<char>,
    parts: PartsModel,
    term: Seq<char>,
) -> Result<Seq<char>, Seq<char>> {
    if status >= 400 {
        Err("anthropic returned HTTP "@ + decimal(status as nat) + ": "@ + shortened(body))
    } else if parts.fault is Some {
        Err("anthropic reply is not JSON: "@ + parts.fault->Some_0)
    } else if parts.stop_reason == Some("refusal"@) {
        Err(
            "anthropic declined to judge `"@ + term + "` ("@ + (match parts.category {
                Some(category) => category,
                None => "no category"@,
            }) + ")"@,
        )
    } else {
        match parts.blocks {
            Some(blocks) => Ok(blocks_text(blocks)),
            None => Ok(Seq::empty()),
        }
    }
}

/// The text of a Chat Completions reply.
pub open spec fn openai_reply(status: u16, body: Seq<char>, parts: PartsModel) -> Result<
    Seq<char>,
    Seq<char>,
> {
    if status >= 400 {
        Err("openai returned HTTP "@ + decimal(status as nat) + ": "@ + shortened(body))
    } else if parts.fault is Some {
        Err("openai reply is not JSON: "@ + parts.fault->Some_0)
    } else {
        Ok(or_empty(parts.choice))
    }
}

/// The text of a provider's reply, from what its JSON holds.
pub open spec fn reply_of(
    provider: Seq<char>,
    status: u16,
    body: Seq<char>,
    parts: PartsModel,
    term: Seq<char>,
) -> Result<Seq<char>, Seq<char>> {
    if provider == "anthropic"@ {
        anthropic_reply(status, body, parts, term)
    } else {
        openai_reply(status, body, parts)
    }
}

fn status_error(provider: &str, status: u16, body: &str) -> (r: String)
    ensures
        r@ == provider@ + " returned HTTP "@ + decimal(status as nat) + ": "@ + shortened(body@),
{
    let mut e = provider.to_string();
    e.append(" returned HTTP ");
    e.append(decimal_text(status as u64).as_str());
    e.append(": ");
    e.append(shorten(body).as_str());
    e
}

/// The text of content blocks.
pub fn text_of_blocks(blocks: &Vec<Block>) -> (r: String)
    ensures
        r@ == blocks_text(blocks_of(blocks@)),
{
    let ghost all = blocks_of(blocks@);
    let mut out = String::new();
    for i in 0..blocks.len()
        invariant
            all == blocks_of(blocks@),
            out@ == blocks_text(all.take(i as int)),
    {
        assert(all.take(i + 1).drop_last() == all.take(i as int));
        assert(all.take(i + 1).last() == blocks@[i as int]@);
        if let Some(word) = &blocks[i].form {
            if same(word.as_str(), "text") {
                out.append(text_or_empty(&blocks[i].text).as_str());
            }
        }
    }
    assert(all.take(blocks@.len() as int) == all);
    out
}

fn anthropic_text(status: u16, body: &str, parts: &ReplyParts, term: &str) -> (r: Result<
    String,
    String,
>)
    ensures
        match r {
            Ok(text) => anthropic_reply(status, body@, parts@, term@) == Ok::<
                Seq<char>,
                Seq<char>,
            >(text@),
            Err(e) => anthropic_reply(status, body@, parts@, term@) == Err::<Seq<char>, Seq<char>>(
                e@,
            ),
        },
{
    if status >= 400 {
        let e = status_error("anthropic", status, body);
        proof {
            reveal_strlit("anthropic");
            reveal_strlit(" returned HTTP ");
            reveal_strlit("anthropic returned HTTP ");
            assert("anthropic"@ + " returned HTTP "@ =~= "anthropic returned HTTP "@);
        }
        return Err(e);
    }
    if let Some(fault) = &parts.fault {
        let mut e = "anthropic reply is not JSON: ".to_string();
        e.append(fault.as_str());
        return Err(e);
    }
    if let Some(reason) = &parts.stop_reason {
        if same(reason.as_str(), "refusal") {
            let mut e = "anthropic declined to judge `".to_string();
            e.append(term);
            e.append("` (");
            match &parts.category {
                Some(category) => {
                    e.append(category.as_str());
                },
                None => {
                    e.append("no category");
                },
            }
            e.append(")");
            return Err(e);
        }
    }
    match &parts.blocks {
        Some(blocks) => Ok(text_of_blocks(blocks)),
        None => Ok(String::new()),
    }
}

fn openai_text(status: u16, body: &str, parts: &ReplyParts) -> (r: Result<String, String>)
    ensures
        match r {
            Ok(text) => openai_reply(status, body@, parts@) == Ok::<Seq<char>, Seq<char>>(text@),
            Err(e) => openai_reply(status, body@, parts@) == Err::<Seq<char>, Seq<char>>(e@),
        },
{
    if status >= 400 {
        let e = status_error("openai", status, body);
        proof {
            reveal_strlit("openai");
            reveal_strlit(" returned HTTP ");
            reveal_strlit("openai returned HTTP ");
            assert("openai"@ + " returned HTTP "@ =~= "openai returned HTTP "@);
        }
        return Err(e);
    }
    if let Some(fault) = &parts.fault {
        let mut e = "openai reply is not JSON: ".to_string();
        e.append(fault.as_str());
        return Err(e);
    }
    Ok(text_or_empty(&parts.choice))
}

/// The text of a provider's reply, from what its JSON holds.
pub fn text_of_parts(provider: &str, status: u16, body: &str, parts: &ReplyParts, term: &str) -> (r:
    Result<String, String>)
    ensures
        match r {
            Ok(text) => reply_of(provider@, status, body@, parts@, term@) == Ok::<
                Seq<char>,
                Seq<char>,
            >(text@),
            Err(e) => reply_of(provider@, status, body@, parts@, term@) == Err::<
                Seq<char>,
                Seq<char>,
            >(e@),
        },
{
    if same(provider, "anthropic") {
        anthropic_text(status, body, parts, term)
    } else {
        openai_text(status, body, parts)
    }
}

/// The text of a provider's reply.
pub fn reply_text(provider: &str, status: u16, body: &str, term: &str) -> (r: Result<
    String,
    String,
>)
    ensures
        match r {
            Ok(text) => reply_of(provider@, status, body@, parts_of(body@), term@) == Ok::<
                Seq<char>,
                Seq<char>,
            >(text@),
            Err(e) => reply_of(provider@, status, body@, parts_of(body@), term@) == Err::<
                Seq<char>,
                Seq<char>,
            >(e@),
        },
{
    let parts = read_parts(body);
    text_of_parts(provider, status, body, &parts, term)
}

// ---------------------------------------------------------------------------
// The pass
// ---------------------------------------------------------------------------

/// The finding for a contradiction.
pub open spec fn contradiction_finding(term: Seq<char>, v: VerdictModel) -> FindingModel {
    FindingModel {
        class: "semantic"@,
        check: "contradiction"@,
        severity: "warning"@,
        term,
        message: "lay definition may contradict "@ + (if v.with.len() == 0 {
            "a linked term"@
        } else {
            "`"@ + v.with + "`"@
        }) + " ("@ + v.model + "): \u{201c}"@ + v.a + "\u{201d} vs \u{201c}"@ + v.b
            + "\u{201d} — "@ + v.why,
        fix: None,
        fixed: false,
    }
}

fn contradiction_report(term: &str, v: &Verdict) -> (r: Finding)
    ensures
        r@ == contradiction_finding(term@, v@),
{
    let mut with = "a linked term".to_string();
    if v.with.as_str().unicode_len() > 0 {
        with = "`".to_string();
        with.append(v.with.as_str());
        with.append("`");
    }
    let mut message = "lay definition may contradict ".to_string();
    message.append(with.as_str());
    message.append(" (");
    message.append(v.model.as_str());
    message.append("): \u{201c}");
    message.append(v.a.as_str());
    message.append("\u{201d} vs \u{201c}");
    message.append(v.b.as_str());
    message.append("\u{201d} — ");
    message.append(v.why.as_str());
    Finding {
        class: "semantic".to_string(),
        check: "contradiction".to_string(),
        severity: "warning".to_string(),
        term: term.to_string(),
        message,
        fix: None,
        fixed: false,
    }
}

/// A pass in progress.
pub struct Run {
    pub cache: Cache,
    pub stats: Stats,
    pub findings: Vec<Finding>,
    /// How many more nodes may be judged; no bound when there is none.
    pub budget: Option<usize>,
    /// The place of the next node.
    pub next: usize,
}

/// A pass in progress.
pub struct RunModel {
    pub cache: Map<Seq<char>, VerdictModel>,
    pub judged: nat,
    pub cached: nat,
    pub calls: nat,
    pub skipped: nat,
    pub findings: Seq<FindingModel>,
    pub budget: Option<nat>,
    pub next: nat,
}

impl View for Run {
    type V = RunModel;

    open spec fn view(&self) -> RunModel {
        RunModel {
            cache: self.cache@,
            judged: self.stats.judged as nat,
            cached: self.stats.cached as nat,
            calls: self.stats.calls as nat,
            skipped: self.stats.skipped as nat,
            findings: findings_of(self.findings@),
            budget: match self.budget {
                Some(n) => Some(n as nat),
                None => None,
            },
            next: self.next as nat,
        }
    }
}

/// The counts of a pass add up: each node was judged or skipped, and each
/// verdict came from the cache or from a call.
pub open spec fn adds_up(r: RunModel) -> bool {
    &&& r.judged + r.skipped == r.next
    &&& r.cached + r.calls == r.judged
}

/// A node with nothing to judge: no definition or no links.
pub open spec fn nothing_to_judge(hood: HoodModel) -> bool {
    hood.definition.len() == 0 || hood.neighbours.len() == 0
}

/// The pass after a node that is skipped.
pub open spec fn skip(r: RunModel) -> RunModel {
    RunModel { skipped: r.skipped + 1, next: r.next + 1, ..r }
}

/// The findings with that of a verdict, when it is a contradiction.
pub open spec fn with_verdict(
    findings: Seq<FindingModel>,
    term: Seq<char>,
    v: VerdictModel,
) -> Seq<FindingModel> {
    if v.contradiction {
        findings.push(contradiction_finding(term, v))
    } else {
        findings
    }
}

/// The pass after a node whose verdict was cached.
pub open spec fn from_cache(r: RunModel, hood: HoodModel, key: Seq<char>) -> RunModel {
    RunModel {
        judged: r.judged + 1,
        cached: r.cached + 1,
        findings: with_verdict(r.findings, hood.term, r.cache[key]),
        next: r.next + 1,
        ..r
    }
}

/// The pass after a node that was judged.
pub open spec fn from_call(
    r: RunModel,
    hood: HoodModel,
    key: Seq<char>,
    v: VerdictModel,
) -> RunModel {
    RunModel {
        cache: r.cache.insert(key, v),
        judged: r.judged + 1,
        calls: r.calls + 1,
        findings: with_verdict(r.findings, hood.term, v),
        budget: match r.budget {
            Some(n) => Some((n - 1) as nat),
            None => None,
        },
        next: r.next + 1,
        ..r
    }
}

/// The pass as far as it goes without a call; it stops at the next node that
/// has to be judged.
pub open spec fn go_on(
    hoods: Seq<HoodModel>,
    provider: Seq<char>,
    model: Seq<char>,
    r: RunModel,
) -> RunModel
    decreases hoods.len() - r.next,
{
    if r.next >= hoods.len() {
        r
    } else {
        let hood = hoods[r.next as int];
        let key = key_of(provider, model, hood);
        if nothing_to_judge(hood) {
            go_on(hoods, provider, model, skip(r))
        } else if r.cache.dom().contains(key) {
            go_on(hoods, provider, model, from_cache(r, hood, key))
        } else if r.budget == Some(0nat) {
            go_on(hoods, provider, model, skip(r))
        } else {
            r
        }
    }
}

impl Run {
    /// A pass that begins with a cache and judges at most `limit` nodes.
    pub fn start(cache: Cache, limit: Option<usize>) -> (r: Run)
        ensures
            r@ == (RunModel {
                cache: cache@,
                judged: 0,
                cached: 0,
                calls: 0,
                skipped: 0,
                findings: Seq::empty(),
                budget: match limit {
                    Some(n) => Some(n as nat),
                    None => None,
                },
                next: 0,
            }),
            adds_up(r@),
    {
        let r = Run {
            cache,
            stats: Stats { judged: 0, cached: 0, calls: 0, skipped: 0 },
            findings: Vec::new(),
            budget: limit,
            next: 0,
        };
        assert(findings_of(r.findings@) =~= Seq::<FindingModel>::empty());
        r
    }

    fn note(&mut self, term: &str, v: &Verdict)
        ensures
            final(self)@ == (RunModel {
                findings: with_verdict(old(self)@.findings, term@, v@),
                ..old(self)@
            }),
            final(self).cache@ == old(self).cache@,
            final(self).stats == old(self).stats,
            final(self).budget == old(self).budget,
            final(self).next == old(self).next,
    {
        if v.contradiction {
            let f = contradiction_report(term, v);
            proof {
                lemma_push_finding(self.findings@, f);
            }
            self.findings.push(f);
        }
    }

    /// Goes on as far as it can without a call. The result is the place of
    /// the next node that has to be judged; nothing when the pass is done.
    pub fn advance(&mut self, hoods: &Vec<Neighbourhood>, provider: &str, model: &str) -> (r:
        Option<usize>)
        requires
            adds_up(old(self)@),
            old(self)@.next <= hoods@.len(),
        ensures
            final(self)@ == go_on(hoods_of(hoods@), provider@, model@, old(self)@),
            adds_up(final(self)@),
            final(self)@.next <= hoods@.len(),
            r is None <==> final(self)@.next == hoods@.len(),
            r matches Some(i) ==> i == final(self)@.next,
    {
        let ghost all = hoods_of(hoods@);
        let ghost start = self@;
        let total: usize = hoods.len();
        while self.next < total
            invariant
                all == hoods_of(hoods@),
                total == hoods@.len(),
                start == old(self)@,
                adds_up(self@),
                self.next <= total,
                go_on(all, provider@, model@, self@) == go_on(all, provider@, model@, start),
            decreases total - self.next,
        {
            let hood = &hoods[self.next];
            let ghost before = self@;
            assert(all[self.next as int] == hood@);
            assert(pairs_of(hood.neighbours@).len() == hood.neighbours@.len());
            if hood.definition.as_str().unicode_len() == 0 || hood.neighbours.len() == 0 {
                self.stats.skipped = self.stats.skipped + 1;
                self.next = self.next + 1;
                assert(self@ == skip(before));
            } else {
                let key = cache_key(provider, model, hood);
                let found = match self.cache.get(key.as_str()) {
                    Some(v) => Some(clone_verdict(v)),
                    None => None,
                };
                match found {
                    Some(v) => {
                        self.note(hood.term.as_str(), &v);
                        self.stats.judged = self.stats.judged + 1;
                        self.stats.cached = self.stats.cached + 1;
                        self.next = self.next + 1;
                        assert(self@ == from_cache(before, hood@, key@));
                    },
                    None => {
                        let spent = match self.budget {
                            Some(n) => n == 0,
                            None => false,
                        };
                        if spent {
                            self.stats.skipped = self.stats.skipped + 1;
                            self.next = self.next + 1;
                            assert(self@ == skip(before));
                        } else {
                            return Some(self.next);
                        }
                    },
                }
            }
        }
        None
    }

    /// Takes in the verdict on the node that had to be judged.
    pub fn answer(
        &mut self,
        hoods: &Vec<Neighbourhood>,
        provider: &str,
        model: &str,
        verdict: Verdict,
    )
        requires
            adds_up(old(self)@),
            old(self)@.next < hoods@.len(),
            old(self)@.budget != Some(0nat),
        ensures
            ({
                let hood = hoods_of(hoods@)[old(self)@.next as int];
                final(self)@ == from_call(
                    old(self)@,
                    hood,
                    key_of(provider@, model@, hood),
                    verdict@,
                )
            }),
            adds_up(final(self)@),
            final(self)@.next <= hoods@.len(),
    {
        let total: usize = hoods.len();
        assert(self.next < total);
        let hood = &hoods[self.next];
        let ghost before = self@;
        assert(hoods_of(hoods@)[self.next as int] == hood@);
        let key = cache_key(provider, model, hood);
        self.note(hood.term.as_str(), &verdict);
        self.cache.insert(key, verdict);
        self.stats.judged = self.stats.judged + 1;
        self.stats.calls = self.stats.calls + 1;
        if let Some(n) = self.budget {
            self.budget = Some(n - 1);
        }
        self.next = self.next + 1;
    }
}

fn clone_verdict(v: &Verdict) -> (r: Verdict)
    ensures
        r@ == v@,
{
    Verdict {
        term: v.term.clone(),
        provider: v.provider.clone(),
        model: v.model.clone(),
        judged_at: v.judged_at.clone(),
        contradiction: v.contradiction,
        with: v.with.clone(),
        a: v.a.clone(),
        b: v.b.clone(),
        why: v.why.clone(),
    }
}

/// The statistics of a pass in words.
pub open spec fn stats_words(judged: nat, cached: nat, calls: nat, skipped: nat) -> Seq<char> {
    "semantic: "@ + decimal(judged) + " node(s) judged, "@ + decimal(cached) + " from cache, "@
        + decimal(calls) + " model call(s), "@ + decimal(skipped)
        + " skipped (no definition or no links)"@
}

/// The statistics of a pass in words.
pub fn stats_text(stats: &Stats) -> (r: String)
    ensures
        r@ == stats_words(
            stats.judged as nat,
            stats.cached as nat,
            stats.calls as nat,
            stats.skipped as nat,
        ),
{
    let mut r = "semantic: ".to_string();
    r.append(decimal_text(stats.judged as u64).as_str());
    r.append(" node(s) judged, ");
    r.append(decimal_text(stats.cached as u64).as_str());
    r.append(" from cache, ");
    r.append(decimal_text(stats.calls as u64).as_str());
    r.append(" model call(s), ");
    r.append(decimal_text(stats.skipped as u64).as_str());
    r.append(" skipped (no definition or no links)");
    r
}

// ---------------------------------------------------------------------------
// Laws
// ---------------------------------------------------------------------------

/// A whole pass in which the model answers the `i`-th node with `judge(i)`.
pub open spec fn whole_run(
    hoods: Seq<HoodModel>,
    provider: Seq<char>,
    model: Seq<char>,
    judge: spec_fn(nat) -> VerdictModel,
    r: RunModel,
) -> RunModel
    decreases hoods.len() - r.next,
{
    if r.next >= hoods.len() {
        r
    } else {
        let hood = hoods[r.next as int];
        let key = key_of(provider, model, hood);
        if nothing_to_judge(hood) {
            whole_run(hoods, provider, model, judge, skip(r))
        } else if r.cache.dom().contains(key) {
            whole_run(hoods, provider, model, judge, from_cache(r, hood, key))
        } else if r.budget == Some(0nat) {
            whole_run(hoods, provider, model, judge, skip(r))
        } else {
            whole_run(hoods, provider, model, judge, from_call(r, hood, key, judge(r.next)))
        }
    }
}

/// A pass that begins with a cache.
pub open spec fn first_state(
    cache: Map<Seq<char>, VerdictModel>,
    limit: Option<nat>,
) -> RunModel {
    RunModel {
        cache,
        judged: 0,
        cached: 0,
        calls: 0,
        skipped: 0,
        findings: Seq::empty(),
        budget: limit,
        next: 0,
    }
}

/// Going on and answering, one node after the other, is the whole pass.
pub proof fn going_on_and_answering_is_the_whole_run(
    hoods: Seq<HoodModel>,
    provider: Seq<char>,
    model: Seq<char>,
    judge: spec_fn(nat) -> VerdictModel,
    r: RunModel,
)
    ensures
        ({
            let s = go_on(hoods, provider, model, r);
            whole_run(hoods, provider, model, judge, r) == if s.next >= hoods.len() {
                s
            } else {
                let hood = hoods[s.next as int];
                whole_run(
                    hoods,
                    provider,
                    model,
                    judge,
                    from_call(s, hood, key_of(provider, model, hood), judge(s.next)),
                )
            }
        }),
    decreases hoods.len() - r.next,
{
    if r.next < hoods.len() {
        let hood = hoods[r.next as int];
        let key = key_of(provider, model, hood);
        if nothing_to_judge(hood) {
            going_on_and_answering_is_the_whole_run(hoods, provider, model, judge, skip(r));
        } else if r.cache.dom().contains(key) {
            going_on_and_answering_is_the_whole_run(
                hoods,
                provider,
                model,
                judge,
                from_cache(r, hood, key),
            );
        } else if r.budget == Some(0nat) {
            going_on_and_answering_is_the_whole_run(hoods, provider, model, judge, skip(r));
        }
    }
}

/// The counts of a whole pass add up to the nodes, and it makes no more calls
/// than it may.
pub proof fn the_counts_add_up(
    hoods: Seq<HoodModel>,
    provider: Seq<char>,
    model: Seq<char>,
    judge: spec_fn(nat) -> VerdictModel,
    r: RunModel,
)
    requires
        adds_up(r),
        r.next <= hoods.len(),
    ensures
        ({
            let s = whole_run(hoods, provider, model, judge, r);
            &&& adds_up(s)
            &&& s.next == hoods.len()
            &&& r.calls <= s.calls
            &&& r.budget matches Some(n) ==> s.calls <= r.calls + n
        }),
    decreases hoods.len() - r.next,
{
    if r.next < hoods.len() {
        let hood = hoods[r.next as int];
        let key = key_of(provider, model, hood);
        if nothing_to_judge(hood) {
            the_counts_add_up(hoods, provider, model, judge, skip(r));
        } else if r.cache.dom().contains(key) {
            the_counts_add_up(hoods, provider, model, judge, from_cache(r, hood, key));
        } else if r.budget == Some(0nat) {
            the_counts_add_up(hoods, provider, model, judge, skip(r));
        } else {
            the_counts_add_up(
                hoods,
                provider,
                model,
                judge,
                from_call(r, hood, key, judge(r.next)),
            );
        }
    }
}

/// What is cached stays as it is.
proof fn lemma_cache_kept(
    hoods: Seq<HoodModel>,
    provider: Seq<char>,
    model: Seq<char>,
    judge: spec_fn(nat) -> VerdictModel,
    r: RunModel,
    key: Seq<char>,
)
    requires
        r.cache.dom().contains(key),
    ensures
        whole_run(hoods, provider, model, judge, r).cache.dom().contains(key),
        whole_run(hoods, provider, model, judge, r).cache[key] == r.cache[key],
    decreases hoods.len() - r.next,
{
    if r.next < hoods.len() {
        let hood = hoods[r.next as int];
        let k = key_of(provider, model, hood);
        if nothing_to_judge(hood) {
            lemma_cache_kept(hoods, provider, model, judge, skip(r), key);
        } else if r.cache.dom().contains(k) {
            lemma_cache_kept(hoods, provider, model, judge, from_cache(r, hood, k), key);
        } else if r.budget == Some(0nat) {
            lemma_cache_kept(hoods, provider, model, judge, skip(r), key);
        } else {
            lemma_cache_kept(
                hoods,
                provider,
                model,
                judge,
                from_call(r, hood, k, judge(r.next)),
                key,
            );
        }
    }
}

/// Two passes over the same nodes, the second with the cache that the first
/// ends with.
proof fn lemma_second_run(
    hoods: Seq<HoodModel>,
    provider: Seq<char>,
    model: Seq<char>,
    judge: spec_fn(nat) -> VerdictModel,
    again: spec_fn(nat) -> VerdictModel,
    r: RunModel,
    s: RunModel,
    limit: Option<nat>,
)
    requires
        r.next == s.next,
        r.judged == s.judged,
        r.skipped == s.skipped,
        r.findings == s.findings,
        r.budget is None,
        s.budget == limit,
        s.calls == 0,
        s.cached == s.judged,
        s.cache == whole_run(hoods, provider, model, judge, r).cache,
    ensures
        ({
            let first = whole_run(hoods, provider, model, judge, r);
            let second = whole_run(hoods, provider, model, again, s);
            &&& second.calls == 0
            &&& second.cached == second.judged
            &&& second.judged == first.judged
            &&& second.skipped == first.skipped
            &&& second.findings == first.findings
            &&& second.cache == first.cache
        }),
    decreases hoods.len() - r.next,
{
    if r.next < hoods.len() {
        let hood = hoods[r.next as int];
        let key = key_of(provider, model, hood);
        if nothing_to_judge(hood) {
            lemma_second_run(hoods, provider, model, judge, again, skip(r), skip(s), limit);
        } else if r.cache.dom().contains(key) {
            lemma_cache_kept(hoods, provider, model, judge, r, key);
            lemma_second_run(
                hoods,
                provider,
                model,
                judge,
                again,
                from_cache(r, hood, key),
                from_cache(s, hood, key),
                limit,
            );
        } else {
            let v = judge(r.next);
            let next = from_call(r, hood, key, v);
            lemma_cache_kept(hoods, provider, model, judge, next, key);
            lemma_second_run(
                hoods,
                provider,
                model,
                judge,
                again,
                next,
                from_cache(s, hood, key),
                limit,
            );
        }
    }
}

/// A rerun on an unchanged ontology makes no model calls: after a pass without
/// a limit, another pass with its cache, whatever its limit and whatever the
/// model would say, takes every verdict from the cache, finds the same and
/// leaves the cache as it is.
pub proof fn a_rerun_makes_no_calls(
    hoods: Seq<HoodModel>,
    provider: Seq<char>,
    model: Seq<char>,
    judge: spec_fn(nat) -> VerdictModel,
    again: spec_fn(nat) -> VerdictModel,
    cache: Map<Seq<char>, VerdictModel>,
    limit: Option<nat>,
)
    ensures
        ({
            let first = whole_run(hoods, provider, model, judge, first_state(cache, None));
            let second = whole_run(
                hoods,
                provider,
                model,
                again,
                first_state(first.cache, limit),
            );
            &&& second.calls == 0
            &&& second.cached == second.judged
            &&& second.judged == first.judged
            &&& second.skipped == first.skipped
            &&& second.findings == first.findings
            &&& second.cache == first.cache
        }),
{
    let r = first_state(cache, None);
    let first = whole_run(hoods, provider, model, judge, r);
    lemma_second_run(
        hoods,
        provider,
        model,
        judge,
        again,
        r,
        first_state(first.cache, limit),
        limit,
    );
}

/// The pairs of a neighbourhood as values.
pub open spec fn pair_values(pairs: Seq<(Seq<char>, Seq<char>)>) -> Seq<JsonModel> {
    Seq::new(pairs.len(), |i: int| pair_json(pairs[i]))
}

proof fn lemma_pair_text(p: (Seq<char>, Seq<char>))
    ensures
        json_written(pair_json(p)) == seq!['['] + (json_quoted(p.0) + (seq![','] + (json_quoted(p.1)
            + seq![']']))),
{
    reveal_with_fuel(list_written, 3);
    reveal_with_fuel(json_written, 3);
    let list = seq![JsonModel::Text(p.0), JsonModel::Text(p.1)];
    assert(list.drop_last() =~= seq![JsonModel::Text(p.0)]);
    assert(list_written(list.drop_last()) == json_written(JsonModel::Text(p.0)));
    assert(list_written(list) == json_quoted(p.0) + seq![','] + json_quoted(p.1));
    assert(json_written(pair_json(p)) =~= seq!['['] + (json_quoted(p.0) + (seq![','] + (json_quoted(
        p.1,
    ) + seq![']']))));
}

/// What follows the first pair of a list in text.
spec fn after_pair(pairs: Seq<(Seq<char>, Seq<char>)>, y: Seq<char>) -> Seq<char> {
    if pairs.len() == 1 {
        seq![']'] + y
    } else {
        seq![','] + (list_written(pair_values(pairs.skip(1))) + (seq![']'] + y))
    }
}

proof fn lemma_pairs_text(pairs: Seq<(Seq<char>, Seq<char>)>, y: Seq<char>)
    requires
        pairs.len() > 0,
    ensures
        list_written(pair_values(pairs)) + (seq![']'] + y) == seq!['['] + (json_quoted(pairs[0].0)
            + (seq![','] + (json_quoted(pairs[0].1) + (seq![']'] + after_pair(pairs, y))))),
{
    let values = pair_values(pairs);
    lemma_pair_text(pairs[0]);
    assert(values[0] == pair_json(pairs[0]));
    if pairs.len() > 1 {
        lemma_list_front(values);
        assert(values.skip(1) =~= pair_values(pairs.skip(1)));
    }
    assert(list_written(values) + (seq![']'] + y) =~= seq!['['] + (json_quoted(pairs[0].0) + (
    seq![','] + (json_quoted(pairs[0].1) + (seq![']'] + after_pair(pairs, y))))));
}

proof fn lemma_drop_first(a: Seq<char>, x: Seq<char>, y: Seq<char>)
    requires
        a + x == a + y,
    ensures
        x == y,
{
    assert(x =~= (a + x).skip(a.len() as int));
    assert(y =~= (a + y).skip(a.len() as int));
}

proof fn lemma_pairs_prefix(
    p: Seq<(Seq<char>, Seq<char>)>,
    q: Seq<(Seq<char>, Seq<char>)>,
    x: Seq<char>,
    y: Seq<char>,
)
    requires
        list_written(pair_values(p)) + (seq![']'] + x) == list_written(pair_values(q)) + (seq![']']
            + y),
    ensures
        p == q,
        x == y,
    decreases p.len(),
{
    let sp = list_written(pair_values(p)) + (seq![']'] + x);
    let sq = list_written(pair_values(q)) + (seq![']'] + y);
    if p.len() > 0 {
        lemma_pairs_text(p, x);
        assert(sp[0] == '[');
    } else {
        assert(sp =~= seq![']'] + x);
    }
    if q.len() > 0 {
        lemma_pairs_text(q, y);
        assert(sq[0] == '[');
    } else {
        assert(sq =~= seq![']'] + y);
    }
    if p.len() == 0 {
        assert(sp[0] == ']');
        assert(q.len() == 0);
        assert(p =~= q);
        lemma_drop_first(seq![']'], x, y);
    } else {
        assert(q.len() > 0) by {
            if q.len() == 0 {
                assert(sq[0] == ']');
            }
        }
        let tp1 = json_quoted(p[0].1) + (seq![']'] + after_pair(p, x));
        let tq1 = json_quoted(q[0].1) + (seq![']'] + after_pair(q, y));
        lemma_drop_first(
            seq!['['],
            json_quoted(p[0].0) + (seq![','] + tp1),
            json_quoted(q[0].0) + (seq![','] + tq1),
        );
        lemma_quoted_prefix(p[0].0, q[0].0, seq![','] + tp1, seq![','] + tq1);
        lemma_drop_first(seq![','], tp1, tq1);
        lemma_quoted_prefix(
            p[0].1,
            q[0].1,
            seq![']'] + after_pair(p, x),
            seq![']'] + after_pair(q, y),
        );
        lemma_drop_first(seq![']'], after_pair(p, x), after_pair(q, y));
        let ap = after_pair(p, x);
        let aq = after_pair(q, y);
        assert(ap[0] == if p.len() == 1 {
            ']'
        } else {
            ','
        });
        assert(aq[0] == if q.len() == 1 {
            ']'
        } else {
            ','
        });
        if p.len() == 1 {
            assert(q.len() == 1);
            lemma_drop_first(seq![']'], x, y);
            assert(p =~= q);
        } else {
            assert(q.len() > 1);
            lemma_drop_first(
                seq![','],
                list_written(pair_values(p.skip(1))) + (seq![']'] + x),
                list_written(pair_values(q.skip(1))) + (seq![']'] + y),
            );
            lemma_pairs_prefix(p.skip(1), q.skip(1), x, y);
            assert(p =~= seq![p[0]] + p.skip(1));
            assert(q =~= seq![q[0]] + q.skip(1));
        }
    }
}

/// A text member and what follows it.
spec fn text_part(name: Seq<char>, value: Seq<char>, rest: Seq<char>) -> Seq<char> {
    json_quoted(name) + (seq![':'] + (json_quoted(value) + rest))
}

spec fn payload_tail(provider: Seq<char>, hood: HoodModel) -> Seq<char> {
    seq![','] + text_part(
        "provider"@,
        provider,
        seq![','] + text_part(
            "term"@,
            hood.term,
            seq![','] + text_part("v"@, PROMPT_VERSION@, seq!['}']),
        ),
    )
}

spec fn payload_text(provider: Seq<char>, model: Seq<char>, hood: HoodModel) -> Seq<char> {
    seq!['{'] + text_part(
        "definition"@,
        hood.definition,
        seq![','] + text_part(
            "model"@,
            model,
            seq![','] + (json_quoted("neighbours"@) + (seq![':'] + (seq!['['] + (list_written(
                pair_values(hood.neighbours),
            ) + (seq![']'] + payload_tail(provider, hood)))))),
        ),
    )
}

proof fn lemma_payload_text(provider: Seq<char>, model: Seq<char>, hood: HoodModel)
    ensures
        json_written(payload(provider, model, hood)) == payload_text(provider, model, hood),
{
    let end = seq!['}'];
    let values = JsonModel::List(pair_values(hood.neighbours));
    let m1 = payload(provider, model, hood)->Object_0;
    assert(m1[2].1 == values);
    let m2 = m1.skip(1);
    let m3 = m2.skip(1);
    let m4 = m3.skip(1);
    let m5 = m4.skip(1);
    let m6 = m5.skip(1);
    lemma_members_front(m1, end);
    lemma_members_front(m2, end);
    lemma_members_front(m3, end);
    lemma_members_front(m4, end);
    lemma_members_front(m5, end);
    lemma_member_alone(m6, end);
    assert(m2[0] == m1[1] && m3[0] == m1[2] && m4[0] == m1[3] && m5[0] == m1[4] && m6[0] == m1[5]);
    let t6 = members_written(m6) + end;
    assert(t6 == text_part("v"@, PROMPT_VERSION@, end));
    let t5 = members_written(m5) + end;
    assert(t5 == text_part("term"@, hood.term, seq![','] + t6));
    let t4 = members_written(m4) + end;
    assert(t4 == text_part("provider"@, provider, seq![','] + t5));
    let t3 = members_written(m3) + end;
    let pairs = list_written(pair_values(hood.neighbours));
    assert(json_written(values) == seq!['['] + pairs + seq![']']);
    assert(json_written(values) + (seq![','] + t4) =~= seq!['['] + (pairs + (seq![']'] + (seq![',']
        + t4))));
    assert(t3 == json_quoted("neighbours"@) + (seq![':'] + (seq!['['] + (pairs + (seq![']'] + (
    seq![','] + t4))))));
    let t2 = members_written(m2) + end;
    assert(t2 == text_part("model"@, model, seq![','] + t3));
    let t1 = members_written(m1) + end;
    assert(t1 == text_part("definition"@, hood.definition, seq![','] + t2));
    assert(json_written(payload(provider, model, hood)) == seq!['{'] + members_written(m1) + end);
    assert(seq!['{'] + members_written(m1) + end =~= seq!['{'] + t1);
}

/// The digest of a verdict's key is taken over everything that the verdict
/// depends on: two different questions never have the same text.
pub proof fn payloads_tell_questions_apart(
    provider: Seq<char>,
    model: Seq<char>,
    hood: HoodModel,
    other_provider: Seq<char>,
    other_model: Seq<char>,
    other: HoodModel,
)
    requires
        json_written(payload(provider, model, hood)) == json_written(
            payload(other_provider, other_model, other),
        ),
    ensures
        provider == other_provider,
        model == other_model,
        hood == other,
{
    lemma_payload_text(provider, model, hood);
    lemma_payload_text(other_provider, other_model, other);
    let tail_a = payload_tail(provider, hood);
    let tail_b = payload_tail(other_provider, other);
    let list_a = list_written(pair_values(hood.neighbours)) + (seq![']'] + tail_a);
    let list_b = list_written(pair_values(other.neighbours)) + (seq![']'] + tail_b);
    let n_a = seq![','] + (json_quoted("neighbours"@) + (seq![':'] + (seq!['['] + list_a)));
    let n_b = seq![','] + (json_quoted("neighbours"@) + (seq![':'] + (seq!['['] + list_b)));
    let m_a = seq![','] + text_part("model"@, model, n_a);
    let m_b = seq![','] + text_part("model"@, other_model, n_b);
    lemma_drop_first(
        seq!['{'],
        text_part("definition"@, hood.definition, m_a),
        text_part("definition"@, other.definition, m_b),
    );
    lemma_text_part("definition"@, hood.definition, other.definition, m_a, m_b);
    lemma_drop_first(
        seq![','],
        text_part("model"@, model, n_a),
        text_part("model"@, other_model, n_b),
    );
    lemma_text_part("model"@, model, other_model, n_a, n_b);
    lemma_drop_first(
        seq![','],
        json_quoted("neighbours"@) + (seq![':'] + (seq!['['] + list_a)),
        json_quoted("neighbours"@) + (seq![':'] + (seq!['['] + list_b)),
    );
    lemma_drop_first(
        json_quoted("neighbours"@),
        seq![':'] + (seq!['['] + list_a),
        seq![':'] + (seq!['['] + list_b),
    );
    lemma_drop_first(seq![':'], seq!['['] + list_a, seq!['['] + list_b);
    lemma_drop_first(seq!['['], list_a, list_b);
    lemma_pairs_prefix(hood.neighbours, other.neighbours, tail_a, tail_b);
    let v = seq![','] + text_part("v"@, PROMPT_VERSION@, seq!['}']);
    let t_a = seq![','] + text_part("term"@, hood.term, v);
    let t_b = seq![','] + text_part("term"@, other.term, v);
    lemma_drop_first(
        seq![','],
        text_part("provider"@, provider, t_a),
        text_part("provider"@, other_provider, t_b),
    );
    lemma_text_part("provider"@, provider, other_provider, t_a, t_b);
    lemma_drop_first(
        seq![','],
        text_part("term"@, hood.term, v),
        text_part("term"@, other.term, v),
    );
    lemma_text_part("term"@, hood.term, other.term, v, v);
}

proof fn lemma_text_part(
    name: Seq<char>,
    a: Seq<char>,
    b: Seq<char>,
    x: Seq<char>,
    y: Seq<char>,
)
    requires
        text_part(name, a, x) == text_part(name, b, y),
    ensures
        a == b,
        x == y,
{
    lemma_drop_first(
        json_quoted(name),
        seq![':'] + (json_quoted(a) + x),
        seq![':'] + (json_quoted(b) + y),
    );
    lemma_drop_first(seq![':'], json_quoted(a) + x, json_quoted(b) + y);
    lemma_quoted_prefix(a, b, x, y);
}

}
