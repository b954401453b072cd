//! What the semantic pass reads, asks and reports.

use vstd::prelude::*;

use crate::commands::semantic::{
    access_of, blocks_text, braced, closed_from, contradiction_finding, nest, nesting,
    object_in, parts_of, prose_around_an_object_is_passed_over, stats_words, verdict_of_reply, BlockModel, Nesting, from_cache, from_call, go_on, hood_of, hoods_in, key_of,
    lay_of, neighbours_of, ontology_links, ontology_of, prompt, prompt_lines, reply_of, request_json,
    shortened, skip, verdict_in, HoodModel, PartsModel, RunModel, SaidModel, VerdictModel,
    SYSTEM_PROMPT,
};
use crate::commands::sources::file_of;
use crate::json::{
    json_bool_at, json_escape, json_escaped, json_fault, json_length_at, json_quoted, json_text_at,
    JsonModel,
};
use crate::markdown::{
    definition, link_terms, plain, section, terms_of, title, typed_links, unique_links, FileModel,
};
use crate::number::decimal;
use crate::order::{lemma_contains_last, lemma_sorted_set, strictly_ascending};
use crate::text::{first_of, starts, strip_trailing};

verus! {

// ---------------------------------------------------------------------------
// Neighbourhoods
// ---------------------------------------------------------------------------

/// Some node link of a text points at a term.
pub open spec fn links_to(text: Seq<char>, t: Seq<char>) -> bool {
    exists|j: int| 0 <= j < typed_links(text).len() && (#[trigger] typed_links(text)[j]).term == t
}

/// The first file of a term stands at a place.
pub open spec fn first_file(all: Seq<FileModel>, t: Seq<char>, k: int) -> bool {
    &&& 0 <= k < all.len()
    &&& all[k].term == t
    &&& forall|m: int| 0 <= m < k ==> (#[trigger] all[m]).term != t
}

/// The file of a term has a lay definition that reads `d` as prose.
pub open spec fn defined_as(all: Seq<FileModel>, t: Seq<char>, d: Seq<char>) -> bool {
    exists|k: int|
        #[trigger] first_file(all, t, k) && definition(all[k].content) is Some && d == plain(
            definition(all[k].content)->Some_0,
        )
}

/// The file of a term is the first of that term.
pub proof fn lemma_file_of(all: Seq<FileModel>, t: Seq<char>)
    ensures
        match file_of(all, t) {
            Some(f) => exists|k: int| #[trigger] first_file(all, t, k) && all[k] == f,
            None => forall|k: int| 0 <= k < all.len() ==> (#[trigger] all[k]).term != t,
        },
    decreases all.len(),
{
    if all.len() > 0 {
        if all[0].term == t {
            assert(first_file(all, t, 0));
        } else {
            let rest = all.skip(1);
            lemma_file_of(rest, t);
            match file_of(rest, t) {
                Some(f) => {
                    let k = choose|k: int| #[trigger] first_file(rest, t, k) && rest[k] == f;
                    assert(all[k + 1] == f);
                    assert forall|m: int| 0 <= m < k + 1 implies (#[trigger] all[m]).term != t by {
                        if m > 0 {
                            assert(rest[m - 1] == all[m]);
                        }
                    }
                    assert(first_file(all, t, k + 1));
                },
                None => {
                    assert forall|k: int| 0 <= k < all.len() implies (
                    #[trigger] all[k]).term != t by {
                        if k > 0 {
                            assert(rest[k - 1] == all[k]);
                        }
                    }
                },
            }
        }
    }
}

/// The lay definition of a term is that of its first file, as prose; there is
/// none without a file or without a definition in it.
proof fn lemma_lay_of(all: Seq<FileModel>, t: Seq<char>, d: Seq<char>)
    requires
        d.len() > 0,
    ensures
        lay_of(all, t) == d <==> defined_as(all, t, d),
        defined_as(all, t, d) ==> terms_of(all).contains(t),
{
    lemma_file_of(all, t);
    if let Some(f) = file_of(all, t) {
        let k = choose|k: int| #[trigger] first_file(all, t, k) && all[k] == f;
        assert(terms_of(all)[k] == t);
        if defined_as(all, t, d) {
            let m = choose|m: int|
                #[trigger] first_file(all, t, m) && definition(all[m].content) is Some && d
                    == plain(definition(all[m].content)->Some_0);
            if m < k {
                assert(all[m].term != t);
            }
            if k < m {
                assert(all[k].term != t);
            }
        }
    } else {
        if defined_as(all, t, d) {
            let m = choose|m: int|
                #[trigger] first_file(all, t, m) && definition(all[m].content) is Some && d
                    == plain(definition(all[m].content)->Some_0);
            assert(all[m].term != t);
        }
    }
}

proof fn lemma_neighbours(
    all: Seq<FileModel>,
    term: Seq<char>,
    links: Seq<Seq<char>>,
    t: Seq<char>,
    d: Seq<char>,
)
    ensures
        neighbours_of(all, term, links).contains((t, d)) <==> links.contains(t) && t != term
            && terms_of(all).contains(t) && d.len() > 0 && lay_of(all, t) == d,
    decreases links.len(),
{
    if links.len() > 0 {
        let front = links.drop_last();
        lemma_neighbours(all, term, front, t, d);
        lemma_contains_last(links, t);
        let list = neighbours_of(all, term, links);
        let x = links.last();
        if x != term && terms_of(all).contains(x) && lay_of(all, x).len() > 0 {
            lemma_contains_last(list, (t, d));
            assert(list.drop_last() =~= neighbours_of(all, term, front));
        }
    }
}

proof fn lemma_linked_terms(text: Seq<char>, t: Seq<char>)
    ensures
        unique_links(text).contains(t) <==> links_to(text, t),
{
    let terms = link_terms(typed_links(text));
    lemma_sorted_set(terms);
    if links_to(text, t) {
        let j = choose|j: int|
            0 <= j < typed_links(text).len() && (#[trigger] typed_links(text)[j]).term == t;
        assert(terms[j] == t);
    }
    if terms.contains(t) {
        let j = choose|j: int| 0 <= j < terms.len() && terms[j] == t;
        assert(typed_links(text)[j].term == t);
    }
}

/// A term is a neighbour of a node, with a text, exactly when the node has a
/// title and an Ontology section, some link of that section points at the
/// term, the term is another one, and its file has a lay definition that reads
/// that text as prose.
pub proof fn a_neighbour_is_linked_from_the_ontology_section(
    all: Seq<FileModel>,
    f: FileModel,
    t: Seq<char>,
    d: Seq<char>,
)
    ensures
        hood_of(all, f).neighbours.contains((t, d)) <==> {
            &&& title(f.content) is Some
            &&& section(f.content, "Ontology"@) is Some
            &&& links_to(section(f.content, "Ontology"@)->Some_0, t)
            &&& t != f.term
            &&& d.len() > 0
            &&& defined_as(all, t, d)
        },
{
    lemma_linked_terms(ontology_of(f.content), t);
    lemma_neighbours(all, f.term, ontology_links(f.content), t, d);
    if d.len() > 0 {
        lemma_lay_of(all, t, d);
    }
}

/// Two texts with a title and the same Ontology section have the same
/// neighbours, whatever else they hold.
pub proof fn the_ontology_section_alone_makes_neighbours(
    all: Seq<FileModel>,
    term: Seq<char>,
    a: Seq<char>,
    b: Seq<char>,
)
    requires
        title(a) is Some,
        title(b) is Some,
        section(a, "Ontology"@) == section(b, "Ontology"@),
    ensures
        hood_of(all, (FileModel { term, content: a })).neighbours == hood_of(
            all,
            (FileModel { term, content: b }),
        ).neighbours,
{
}

proof fn lemma_neighbours_ascend(all: Seq<FileModel>, term: Seq<char>, links: Seq<Seq<char>>)
    requires
        strictly_ascending(links),
    ensures
        ({
            let list = neighbours_of(all, term, links);
            &&& strictly_ascending(Seq::new(list.len(), |i: int| list[i].0))
            &&& list.len() > 0 ==> links.len() > 0 && (list.last().0 == links.last()
                || crate::order::before(list.last().0, links.last()))
        }),
    decreases links.len(),
{
    if links.len() > 0 {
        let front = links.drop_last();
        assert(strictly_ascending(front));
        lemma_neighbours_ascend(all, term, front);
        let list = neighbours_of(all, term, links);
        let start = neighbours_of(all, term, front);
        let names = Seq::new(list.len(), |i: int| list[i].0);
        let first = Seq::new(start.len(), |i: int| start[i].0);
        if front.len() > 0 {
            assert(crate::order::before(links[front.len() - 1], links[links.len() - 1]));
            if start.len() > 0 && start.last().0 != front.last() {
                crate::order::lemma_before_transitive(
                    start.last().0,
                    front.last(),
                    links.last(),
                );
            }
        }
        if list.len() == start.len() {
            assert(list =~= start);
            assert(names =~= first);
        } else {
            assert forall|i: int, j: int| 0 <= i < j < names.len() implies #[trigger]
                crate::order::before(names[i], names[j]) by {
                if j < start.len() {
                    assert(names[i] == first[i] && names[j] == first[j]);
                } else {
                    assert(names[i] == first[i]);
                    if i < start.len() - 1 {
                        assert(crate::order::before(first[i], first[start.len() - 1]));
                        crate::order::lemma_before_transitive(
                            first[i],
                            start.last().0,
                            links.last(),
                        );
                    }
                }
            }
        }
    }
}

/// The neighbours of a node stand in the order of their terms, each once.
pub proof fn neighbours_stand_in_order(all: Seq<FileModel>, f: FileModel)
    ensures
        strictly_ascending(
            Seq::new(
                hood_of(all, f).neighbours.len(),
                |i: int| hood_of(all, f).neighbours[i].0,
            ),
        ),
{
    lemma_sorted_set(link_terms(typed_links(ontology_of(f.content))));
    lemma_neighbours_ascend(all, f.term, ontology_links(f.content));
}

/// There is one neighbourhood for each file, in order, with its term and the
/// lay definition of that term as prose.
pub proof fn every_node_has_a_neighbourhood(all: Seq<FileModel>, i: int, d: Seq<char>)
    requires
        0 <= i < all.len(),
        d.len() > 0,
    ensures
        hoods_in(all).len() == all.len(),
        hoods_in(all)[i].term == all[i].term,
        hoods_in(all)[i].definition == d <==> defined_as(all, all[i].term, d),
        hoods_in(all)[i].neighbours == hood_of(all, all[i]).neighbours,
{
    lemma_lay_of(all, all[i].term, d);
}

// ---------------------------------------------------------------------------
// Prompts and requests
// ---------------------------------------------------------------------------

proof fn lemma_lines_front(
    a: Seq<(Seq<char>, Seq<char>)>,
    b: Seq<(Seq<char>, Seq<char>)>,
    n: nat,
)
    requires
        n <= a.len(),
        n <= b.len(),
        forall|i: int| 0 <= i < n ==> a[i] == b[i],
    ensures
        prompt_lines(a, n) == prompt_lines(b, n),
    decreases n,
{
    if n > 0 {
        lemma_lines_front(a, b, (n - 1) as nat);
    }
}

/// The prompt names the term with its definition, and each further neighbour
/// adds one line to its end, with the term and its definition.
pub proof fn the_prompt_tells_every_definition(
    hood: HoodModel,
    t: Seq<char>,
    d: Seq<char>,
)
    ensures
        prompt((HoodModel { neighbours: Seq::empty(), ..hood })) == "Term `"@ + hood.term + "`: "@
            + hood.definition + "\n\nLinked terms:\n"@,
        prompt((HoodModel { neighbours: hood.neighbours.push((t, d)), ..hood })) == prompt(hood)
            + "- `"@ + t + "`: "@ + d + "\n"@,
{
    let none = HoodModel { neighbours: Seq::empty(), ..hood };
    assert(prompt_lines(none.neighbours, 0) =~= Seq::<char>::empty());
    assert(prompt(none) =~= "Term `"@ + hood.term + "`: "@ + hood.definition
        + "\n\nLinked terms:\n"@);
    let more = hood.neighbours.push((t, d));
    let n = hood.neighbours.len();
    lemma_lines_front(hood.neighbours, more, n);
    assert(more[n as int] == (t, d));
    assert(prompt((HoodModel { neighbours: more, ..hood })) =~= prompt(hood) + "- `"@ + t + "`: "@
        + d + "\n"@);
}

/// A message of a request in a role.
pub open spec fn turn(role: Seq<char>, content: Seq<char>) -> JsonModel {
    JsonModel::Object(
        seq![("content"@, JsonModel::Text(content)), ("role"@, JsonModel::Text(role))],
    )
}

/// A request names the model and carries the instructions and the prompt: to
/// one provider as a member of their own and as the one turn of the user, to
/// the other as the turn of the system and that of the user, with an object
/// asked for.
pub proof fn a_request_carries_the_prompt(
    provider: Seq<char>,
    model: Seq<char>,
    hood: HoodModel,
)
    ensures
        request_json("anthropic"@, model, hood) == JsonModel::Object(
            seq![
                ("max_tokens"@, JsonModel::Number(1024)),
                ("messages"@, JsonModel::List(seq![turn("user"@, prompt(hood))])),
                ("model"@, JsonModel::Text(model)),
                ("system"@, JsonModel::Text(SYSTEM_PROMPT@)),
            ],
        ),
        provider != "anthropic"@ ==> request_json(provider, model, hood) == JsonModel::Object(
            seq![
                (
                    "messages"@,
                    JsonModel::List(
                        seq![turn("system"@, SYSTEM_PROMPT@), turn("user"@, prompt(hood))],
                    ),
                ),
                ("model"@, JsonModel::Text(model)),
                (
                    "response_format"@,
                    JsonModel::Object(seq![("type"@, JsonModel::Text("json_object"@))]),
                ),
            ],
        ),
{
}

proof fn lemma_slash_free(s: Seq<char>)
    requires
        s.len() > 0,
        s.last() != '/',
    ensures
        strip_trailing(s, "/"@) == s,
        strip_trailing(s + "/"@, "/"@) == s,
{
    reveal_strlit("/");
    assert(!"/"@.contains(s.last()));
    let more = s + "/"@;
    assert(more.last() == '/');
    assert("/"@[0] == '/');
    assert("/"@.contains('/'));
    assert(more.drop_last() =~= s);
}

/// Each provider is reached at its own host and path. An endpoint stands in
/// for the host, whether or not it ends in a slash; a key that is given is
/// taken before that of the environment; and without either, or with a
/// provider that is not known, it is said what is missing.
pub proof fn providers_are_reached_at_their_hosts(
    endpoint: Seq<char>,
    key: Seq<char>,
    other: Option<Seq<char>>,
    provider: Seq<char>,
)
    requires
        endpoint.len() > 0,
        endpoint.last() != '/',
    ensures
        access_of("anthropic"@, None, Some(key), other) == Ok::<
            (Seq<char>, Seq<char>),
            Seq<char>,
        >(("https://api.anthropic.com"@ + "/v1/messages"@, key)),
        access_of("openai"@, None, Some(key), other) == Ok::<(Seq<char>, Seq<char>), Seq<char>>(
            ("https://api.openai.com"@ + "/v1/chat/completions"@, key),
        ),
        access_of("anthropic"@, Some(endpoint), None, Some(key)) == Ok::<
            (Seq<char>, Seq<char>),
            Seq<char>,
        >((endpoint + "/v1/messages"@, key)),
        access_of("openai"@, Some(endpoint), None, Some(key)) == Ok::<
            (Seq<char>, Seq<char>),
            Seq<char>,
        >((endpoint + "/v1/chat/completions"@, key)),
        access_of(provider, Some(endpoint + "/"@), Some(key), other) == access_of(
            provider,
            Some(endpoint),
            Some(key),
            other,
        ),
        access_of("anthropic"@, Some(endpoint), None, None) == Err::<
            (Seq<char>, Seq<char>),
            Seq<char>,
        >("ANTHROPIC_API_KEY"@ + " is not set; the semantic pass needs a "@ + "anthropic"@ + " key"@),
        access_of("openai"@, Some(endpoint), None, None) == Err::<
            (Seq<char>, Seq<char>),
            Seq<char>,
        >("OPENAI_API_KEY"@ + " is not set; the semantic pass needs a "@ + "openai"@ + " key"@),
        provider != "anthropic"@ && provider != "openai"@ ==> access_of(
            provider,
            Some(endpoint),
            Some(key),
            other,
        ) == Err::<(Seq<char>, Seq<char>), Seq<char>>(
            "unknown provider '"@ + provider + "' (expected anthropic or openai)"@,
        ),
{
    reveal_strlit("anthropic");
    reveal_strlit("openai");
    assert("anthropic"@.len() == 9 && "openai"@.len() == 6);
    reveal_strlit("https://api.anthropic.com");
    reveal_strlit("https://api.openai.com");
    assert("https://api.anthropic.com"@.last() == 'm');
    assert("https://api.openai.com"@.last() == 'm');
    lemma_slash_free("https://api.anthropic.com"@);
    lemma_slash_free("https://api.openai.com"@);
    lemma_slash_free(endpoint);
}

// ---------------------------------------------------------------------------
// Replies and findings
// ---------------------------------------------------------------------------

/// A long text is cut to 160 characters and an ellipsis; a shorter one is
/// kept.
pub proof fn long_texts_are_cut(s: Seq<char>)
    ensures
        s.len() <= 160 ==> shortened(s) == s,
        s.len() > 160 ==> shortened(s).len() == 161 && shortened(s).last() == '…' && starts(
            s,
            shortened(s).drop_last(),
        ),
{
    if s.len() > 160 {
        assert(shortened(s).drop_last() =~= s.take(160));
    }
}

/// A reply gives text exactly when its status is below 400, it is JSON, and,
/// from the one provider that says so, it is no refusal.
pub proof fn a_reply_gives_text_unless_it_failed(
    status: u16,
    body: Seq<char>,
    parts: PartsModel,
    term: Seq<char>,
)
    ensures
        reply_of("anthropic"@, status, body, parts, term) is Ok <==> status < 400
            && parts.fault is None && parts.stop_reason != Some("refusal"@),
        reply_of("openai"@, status, body, parts, term) is Ok <==> status < 400
            && parts.fault is None,
        status >= 400 ==> reply_of("anthropic"@, status, body, parts, term) == Err::<
            Seq<char>,
            Seq<char>,
        >("anthropic returned HTTP "@ + decimal(status as nat) + ": "@ + shortened(body)),
        status >= 400 ==> reply_of("openai"@, status, body, parts, term) == Err::<
            Seq<char>,
            Seq<char>,
        >("openai returned HTTP "@ + decimal(status as nat) + ": "@ + shortened(body)),
        status < 400 && parts.fault is None && parts.choice is Some ==> reply_of(
            "openai"@,
            status,
            body,
            parts,
            term,
        ) == Ok::<Seq<char>, Seq<char>>(parts.choice->Some_0),
{
    reveal_strlit("anthropic");
    reveal_strlit("openai");
    assert("anthropic"@.len() == 9 && "openai"@.len() == 6);
}

/// A verdict says what the object said, each part in its place: a
/// contradiction only where it said so, and nothing for a part it left out.
pub proof fn a_verdict_says_what_was_said(
    said: SaidModel,
    term: Seq<char>,
    provider: Seq<char>,
    model: Seq<char>,
    judged_at: Seq<char>,
)
    ensures
        ({
            let v = verdict_in(said, term, provider, model, judged_at);
            &&& v.term == term && v.provider == provider && v.model == model && v.judged_at
                == judged_at
            &&& v.contradiction <==> said.contradiction == Some(true)
            &&& said.with matches Some(x) ==> v.with == x
            &&& said.a matches Some(x) ==> v.a == x
            &&& said.b matches Some(x) ==> v.b == x
            &&& said.why matches Some(x) ==> v.why == x
            &&& said.with is None ==> v.with.len() == 0
            &&& said.a is None ==> v.a.len() == 0
            &&& said.b is None ==> v.b.len() == 0
            &&& said.why is None ==> v.why.len() == 0
        }),
{
}

/// A contradiction is reported as a warning about the term, with the term it
/// contradicts, the two sentences and the reason, in that order.
pub proof fn a_contradiction_is_told(term: Seq<char>, v: VerdictModel)
    ensures
        contradiction_finding(term, v).class == "semantic"@,
        contradiction_finding(term, v).check == "contradiction"@,
        contradiction_finding(term, v).severity == "warning"@,
        contradiction_finding(term, v).term == term,
        contradiction_finding(term, v).fix is None,
        !contradiction_finding(term, v).fixed,
        v.with.len() > 0 ==> contradiction_finding(term, v).message
            == "lay definition may contradict "@ + ("`"@ + v.with + "`"@) + " ("@ + v.model
            + "): \u{201c}"@ + v.a + "\u{201d} vs \u{201c}"@ + v.b + "\u{201d} — "@ + v.why,
        v.with.len() == 0 ==> contradiction_finding(term, v).message
            == "lay definition may contradict "@ + "a linked term"@ + " ("@ + v.model
            + "): \u{201c}"@ + v.a + "\u{201d} vs \u{201c}"@ + v.b + "\u{201d} — "@ + v.why,
{
}

/// A verdict from the cache is reported just as one from a call is, and only
/// a contradiction is reported.
pub proof fn a_cached_verdict_is_reported_like_a_fresh_one(
    r: RunModel,
    hood: HoodModel,
    key: Seq<char>,
)
    ensures
        from_cache(r, hood, key).findings == from_call(r, hood, key, r.cache[key]).findings,
        r.cache[key].contradiction ==> from_cache(r, hood, key).findings == r.findings.push(
            contradiction_finding(hood.term, r.cache[key]),
        ),
        !r.cache[key].contradiction ==> from_cache(r, hood, key).findings == r.findings,
{
}

/// The pass goes past a node without a definition, one without neighbours,
/// and, once its budget is spent, one that is not cached; it stops at a node
/// that has both, is not cached and may still be judged.
pub proof fn the_pass_stops_at_what_it_has_to_ask(
    hoods: Seq<HoodModel>,
    provider: Seq<char>,
    model: Seq<char>,
    r: RunModel,
)
    requires
        r.next < hoods.len(),
    ensures
        ({
            let hood = hoods[r.next as int];
            let asked = hood.definition.len() > 0 && hood.neighbours.len() > 0;
            let kept = r.cache.dom().contains(key_of(provider, model, hood));
            &&& !asked ==> go_on(hoods, provider, model, r) == go_on(
                hoods,
                provider,
                model,
                skip(r),
            )
            &&& asked && !kept && r.budget == Some(0nat) ==> go_on(hoods, provider, model, r)
                == go_on(hoods, provider, model, skip(r))
            &&& asked && !kept && r.budget != Some(0nat) ==> go_on(hoods, provider, model, r) == r
            &&& skip(r).findings == r.findings
            &&& skip(r).cache == r.cache
            &&& skip(r).next == r.next + 1
        }),
{
}

// ---------------------------------------------------------------------------
// Replies
// ---------------------------------------------------------------------------

/// The text of content blocks is that of the blocks of text, one after the
/// other.
pub proof fn blocks_of_text_are_read(blocks: Seq<BlockModel>, b: BlockModel)
    ensures
        blocks_text(Seq::empty()) == Seq::<char>::empty(),
        b.form == Some("text"@) && b.text is Some ==> blocks_text(blocks.push(b)) == blocks_text(
            blocks,
        ) + b.text->Some_0,
        b.form != Some("text"@) || b.text is None ==> blocks_text(blocks.push(b)) == blocks_text(
            blocks,
        ),
{
    assert(blocks.push(b).drop_last() =~= blocks);
    assert(blocks_text(blocks) + Seq::<char>::empty() =~= blocks_text(blocks));
}

/// The statistics name what was judged, what came from the cache, the calls
/// and what was skipped.
pub proof fn the_statistics_name_their_counts(judged: nat, cached: nat, calls: nat, skipped: nat)
    ensures
        stats_words(judged, cached, calls, skipped) == "semantic: "@ + decimal(judged)
            + " node(s) judged, "@ + decimal(cached) + " from cache, "@ + decimal(calls)
            + " model call(s), "@ + decimal(skipped) + " skipped (no definition or no links)"@,
{
}

/// No brace and no quotation mark.
pub open spec fn unbraced(s: Seq<char>) -> bool {
    forall|i: int|
        0 <= i < s.len() ==> #[trigger] s[i] != '{' && s[i] != '}' && s[i] != '"'
}

/// Between braces all along, outside strings, from one place to another.
spec fn stays_open(s: Seq<char>, from: int, to: int) -> bool {
    forall|k: nat| from <= k <= to ==> (#[trigger] nesting(s, k)).depth == 1
}

proof fn lemma_plain_run(s: Seq<char>, from: nat, to: nat)
    requires
        from <= to <= s.len(),
        nesting(s, from) == (Nesting { depth: 1, quoted: false, escaped: false }),
        forall|i: int|
            from <= i < to ==> #[trigger] s[i] != '{' && s[i] != '}' && s[i] != '"',
    ensures
        nesting(s, to) == (Nesting { depth: 1, quoted: false, escaped: false }),
        stays_open(s, from as int, to as int),
    decreases to - from,
{
    if from < to {
        lemma_plain_run(s, from, (to - 1) as nat);
        assert(s[to - 1] != '{');
        assert forall|k: nat| from <= k <= to implies (#[trigger] nesting(s, k)).depth
            == 1 by {
            if k < to {
                assert(stays_open(s, from as int, to - 1));
            }
        }
    }
}

proof fn lemma_string_run(s: Seq<char>, from: nat, text: Seq<char>)
    requires
        from + json_escaped(text).len() <= s.len(),
        s.subrange(from as int, (from + json_escaped(text).len()) as int) == json_escaped(text),
        nesting(s, from) == (Nesting { depth: 1, quoted: true, escaped: false }),
    ensures
        nesting(s, from + json_escaped(text).len()) == (Nesting {
            depth: 1,
            quoted: true,
            escaped: false,
        }),
        stays_open(s, from as int, (from + json_escaped(text).len()) as int),
    decreases text.len(),
{
    if text.len() > 0 {
        let e = json_escape(text[0]);
        let rest = json_escaped(text.skip(1));
        let all = json_escaped(text);
        let here = s.subrange(from as int, (from + all.len()) as int);
        let mid = (from + e.len()) as nat;
        assert forall|i: int| 0 <= i < e.len() implies s[from + i] == e[i] by {
            assert(here[i] == all[i] && all[i] == e[i]);
        }
        lemma_escape_run(s, from, text[0]);
        assert(s.subrange(mid as int, (mid + rest.len()) as int) =~= rest) by {
            assert forall|i: int| 0 <= i < rest.len() implies s[mid + i] == rest[i] by {
                assert(here[e.len() + i] == all[e.len() + i]);
            }
        }
        lemma_string_run(s, mid, text.skip(1));
        assert forall|k: nat| from <= k <= from + all.len() implies (
        #[trigger] nesting(s, k)).depth == 1 by {
            if k <= mid {
                assert(stays_open(s, from as int, mid as int));
            } else {
                assert(stays_open(s, mid as int, (mid + rest.len()) as int));
            }
        }
    }
}

proof fn lemma_escape_run(s: Seq<char>, from: nat, c: char)
    requires
        from + json_escape(c).len() <= s.len(),
        forall|i: int| 0 <= i < json_escape(c).len() ==> s[from + i] == #[trigger] json_escape(c)[i],
        nesting(s, from) == (Nesting { depth: 1, quoted: true, escaped: false }),
    ensures
        nesting(s, from + json_escape(c).len()) == (Nesting {
            depth: 1,
            quoted: true,
            escaped: false,
        }),
        stays_open(s, from as int, (from + json_escape(c).len()) as int),
{
    let e = json_escape(c);
    assert(s[(from + 0) as int] == e[0]);
    let one = nesting(s, from + 1);
    assert(one == nest(nesting(s, from), s[from as int]));
    if e.len() == 1 {
        assert(e[0] != '\\' && e[0] != '"');
        assert(stays_open(s, from as int, (from + 1) as int));
    } else {
        assert(e[0] == '\\');
        assert(s[(from + 1) as int] == e[1]);
        let two = nesting(s, from + 2);
        assert(two == nest(one, s[(from + 1) as int]));
        if e.len() > 2 {
            let code = c as int;
            assert(code / 16 == 0 || code / 16 == 1);
            assert(0 <= code % 16 < 16);
            assert(s[(from + 2) as int] == '0' && s[(from + 3) as int] == '0') by {
                assert(s[(from + 2) as int] == e[2] && s[(from + 3) as int] == e[3]);
            }
            assert(s[(from + 4) as int] == e[4] && s[(from + 5) as int] == e[5]);
            assert(nesting(s, from + 3) == nest(two, s[(from + 2) as int]));
            assert(nesting(s, from + 4) == nest(nesting(s, from + 3), s[(from + 3) as int]));
            assert(nesting(s, from + 5) == nest(nesting(s, from + 4), s[(from + 4) as int]));
            assert(nesting(s, from + 6) == nest(nesting(s, from + 5), s[(from + 5) as int]));
            assert forall|k: nat| from <= k <= from + 6 implies (
            #[trigger] nesting(s, k)).depth == 1 by {
                assert(k == from || k == from + 1 || k == from + 2 || k == from + 3 || k == from + 4
                    || k == from + 5 || k == from + 6);
            }
        } else {
            assert forall|k: nat| from <= k <= from + 2 implies (
            #[trigger] nesting(s, k)).depth == 1 by {
                assert(k == from || k == from + 1 || k == from + 2);
            }
        }
    }
}

proof fn lemma_closed_at(s: Seq<char>, from: nat, end: nat)
    requires
        from <= end <= s.len(),
        forall|k: nat| from <= k < end ==> (#[trigger] nesting(s, k)).depth != 0,
        nesting(s, end).depth == 0,
    ensures
        closed_from(s, from) == Some(end),
    decreases end - from,
{
    if from < end {
        assert(nesting(s, from).depth != 0);
        lemma_closed_at(s, from + 1, end);
    }
}

/// An object in a reply ends with its own brace: whatever a string in it
/// holds, braces and quotation marks too, does not end it, and prose around it
/// is passed over.
pub proof fn strings_do_not_end_an_object(
    before: Seq<char>,
    x: Seq<char>,
    text: Seq<char>,
    y: Seq<char>,
    behind: Seq<char>,
)
    requires
        !before.contains('{'),
        unbraced(x),
        unbraced(y),
    ensures
        braced(before + (seq!['{'] + x + json_quoted(text) + y + seq!['}']) + behind) == Some(
            seq!['{'] + x + json_quoted(text) + y + seq!['}'],
        ),
{
    let q = json_quoted(text);
    let s = seq!['{'] + x + q + y + seq!['}'];
    let a = (1 + x.len()) as nat;
    let e = json_escaped(text).len();
    let b = (a + 1 + e) as nat;
    let c = (b + 1) as nat;
    let d = (c + y.len()) as nat;
    assert(q.len() == e + 2);
    assert(s.len() == d + 1);
    assert(nesting(s, 0) == (Nesting { depth: 0, quoted: false, escaped: false }));
    assert(nesting(s, 1) == nest(nesting(s, 0), s[0]));
    assert forall|i: int| 1 <= i < a implies #[trigger] s[i] != '{' && s[i] != '}' && s[i] != '"' by {
        assert(s[i] == x[i - 1]);
    }
    lemma_plain_run(s, 1, a);
    assert(s[a as int] == '"');
    assert(nesting(s, a + 1) == nest(nesting(s, a), s[a as int]));
    assert(s.subrange((a + 1) as int, (a + 1 + e) as int) =~= json_escaped(text));
    lemma_string_run(s, a + 1, text);
    assert(s[b as int] == '"');
    assert(nesting(s, b + 1) == nest(nesting(s, b), s[b as int]));
    assert forall|i: int| c <= i < d implies #[trigger] s[i] != '{' && s[i] != '}' && s[i] != '"' by {
        assert(s[i] == y[i - c]);
    }
    lemma_plain_run(s, c, d);
    assert(s[d as int] == '}');
    assert(nesting(s, d + 1) == nest(nesting(s, d), s[d as int]));
    assert forall|k: nat| 1 <= k < d + 1 implies (#[trigger] nesting(s, k)).depth != 0 by {
        if k <= a {
            assert(stays_open(s, 1, a as int));
        } else if k <= b {
            assert(stays_open(s, (a + 1) as int, b as int));
        } else {
            assert(stays_open(s, c as int, d as int));
        }
    }
    lemma_closed_at(s, 1, d + 1);
    reveal_strlit("{");
    assert(s.take(1) =~= "{"@);
    assert(first_of(s, "{"@) == Some(0int));
    assert(s.skip(0) =~= s);
    assert(s.take((d + 1) as int) =~= s);
    prose_around_an_object_is_passed_over(before, s, behind);
}

/// A reply is read for its first object; without one it is told, with the
/// beginning of the reply.
pub proof fn a_reply_without_an_object_is_told(
    text: Seq<char>,
    term: Seq<char>,
    provider: Seq<char>,
    model: Seq<char>,
    judged_at: Seq<char>,
)
    ensures
        object_in(text) is None ==> verdict_of_reply(text, term, provider, model, judged_at) == Err::<
            VerdictModel,
            Seq<char>,
        >("model reply for `"@ + term + "` carried no JSON object: "@ + shortened(text)),
        object_in(text) matches Some(json) ==> verdict_of_reply(
            text,
            term,
            provider,
            model,
            judged_at,
        ) == Ok::<VerdictModel, Seq<char>>(
            verdict_in(
                (SaidModel {
                    contradiction: json_bool_at(json, "/contradiction"@),
                    with: json_text_at(json, "/with"@),
                    a: json_text_at(json, "/a"@),
                    b: json_text_at(json, "/b"@),
                    why: json_text_at(json, "/why"@),
                }),
                term,
                provider,
                model,
                judged_at,
            ),
        ),
{
}

/// What is read of a reply: why it stopped, the category of a refusal, the
/// type and the text of each content block, and the first choice of a reply
/// that has choices.
pub proof fn replies_are_read_at_their_members(body: Seq<char>, i: int)
    ensures
        ({
            let parts = parts_of(body);
            &&& parts.fault == json_fault(body)
            &&& parts.stop_reason == json_text_at(body, "/stop_reason"@)
            &&& parts.category == json_text_at(body, "/stop_details/category"@)
            &&& json_length_at(body, "/content"@) is None ==> parts.blocks is None
            &&& json_length_at(body, "/content"@) matches Some(n) ==> parts.blocks is Some
                && parts.blocks->Some_0.len() == n && (0 <= i < n ==> {
                let block = parts.blocks->Some_0[i];
                &&& block.form == json_text_at(body, "/content/"@ + decimal(i as nat) + "/type"@)
                &&& block.text == json_text_at(body, "/content/"@ + decimal(i as nat) + "/text"@)
            })
            &&& json_length_at(body, "/choices"@) is None ==> parts.choice is None
            &&& json_length_at(body, "/choices"@) is Some ==> parts.choice == json_text_at(
                body,
                "/choices/0/message/content"@,
            )
        }),
{
}

}
