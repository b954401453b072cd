//! Turtle 1.1 text of an export.

use vstd::prelude::*;
use vstd::string::*;

use crate::commands::export::{
    export_rings_of, ring_iri_of, term_iri_of, ConceptModel, ExportGraph, ExportNode, ExportRing,
    GraphModel, DCTERMS, LANG, RDFS, SKOS, XSD,
};
use crate::config::RingModel;
use crate::number::{decimal, decimal_text};
use crate::text::{
    chars_of, join, join_texts, lemma_push_text, lemma_take_next, opt_text, texts,
};

verus! {

/// A character inside a literal: quotation marks, backslashes and line breaks
/// are escaped.
pub open spec fn turtle_escape(c: char) -> Seq<char> {
    if c == '\\' {
        seq!['\\', '\\']
    } else if c == '"' {
        seq!['\\', '"']
    } else if c == '\n' {
        seq!['\\', 'n']
    } else if c == '\r' {
        seq!['\\', 'r']
    } else if c == '\t' {
        seq!['\\', 't']
    } else {
        seq![c]
    }
}

/// The characters of a text inside a literal.
pub open spec fn turtle_escaped(s: Seq<char>) -> Seq<char>
    decreases s.len(),
{
    if s.len() == 0 {
        Seq::empty()
    } else {
        turtle_escape(s[0]) + turtle_escaped(s.skip(1))
    }
}

/// A literal with a language tag.
pub open spec fn literal_of(value: Seq<char>) -> Seq<char> {
    "\""@ + turtle_escaped(value) + "\"@"@ + LANG@
}

/// A short-form Turtle literal with a language tag. Newlines, quotes, and
/// backslashes are escaped so any section prose stays on one line.
pub fn literal(value: &str) -> (r: String)
    ensures
        r@ == literal_of(value@),
{
    let cs = chars_of(value);
    let mut r = "\"".to_string();
    let ghost start = r@;
    assert(cs@.skip(0) == cs@);
    let mut body = String::new();
    for i in 0..cs.len()
        invariant
            turtle_escaped(cs@) == body@ + turtle_escaped(cs@.skip(i as int)),
    {
        let c = cs[i];
        let ghost was = body@;
        let ghost rest = cs@.skip(i as int);
        assert(rest[0] == c);
        assert(rest.skip(1) == cs@.skip(i + 1));
        if c == '\\' {
            body.push('\\');
            body.push('\\');
        } else if c == '"' {
            body.push('\\');
            body.push('"');
        } else if c == '\n' {
            body.push('\\');
            body.push('n');
        } else if c == '\r' {
            body.push('\\');
            body.push('r');
        } else if c == '\t' {
            body.push('\\');
            body.push('t');
        } else {
            body.push(c);
        }
        assert(body@ =~= was + turtle_escape(c));
        assert(was + (turtle_escape(c) + turtle_escaped(rest.skip(1))) =~= body@ + turtle_escaped(
            cs@.skip(i + 1),
        ));
    }
    assert(body@ + turtle_escaped(cs@.skip(cs@.len() as int)) =~= body@);
    r.append(body.as_str());
    r.append("\"@");
    r.append(LANG);
    r
}

/// An IRI reference.
pub open spec fn iri_ref(iri: Seq<char>) -> Seq<char> {
    "<"@ + iri + ">"@
}

fn iri_text(iri: &str) -> (r: String)
    ensures
        r@ == iri_ref(iri@),
{
    let mut r = "<".to_string();
    r.append(iri);
    r.append(">");
    r
}

/// References to terms.
pub open spec fn term_refs(base: Seq<char>, terms: Seq<Seq<char>>) -> Seq<Seq<char>> {
    Seq::new(terms.len(), |i: int| iri_ref(term_iri_of(base, terms[i])))
}

/// References to IRIs.
pub open spec fn iri_refs(iris: Seq<Seq<char>>) -> Seq<Seq<char>> {
    Seq::new(iris.len(), |i: int| iri_ref(iris[i]))
}

fn texts_of_terms(g: &ExportGraph, terms: &Vec<String>) -> (r: Vec<String>)
    ensures
        texts(r@) == term_refs(g@.base_iri, texts(terms@)),
{
    let ghost all = term_refs(g@.base_iri, texts(terms@));
    let mut r: Vec<String> = Vec::new();
    assert(texts(r@) =~= all.take(0));
    for i in 0..terms.len()
        invariant
            all == term_refs(g@.base_iri, texts(terms@)),
            texts(r@) == all.take(i as int),
    {
        let x = iri_text(g.term_iri(terms[i].as_str()).as_str());
        proof {
            lemma_push_text(r@, x);
            lemma_take_next(all, i as int);
        }
        r.push(x);
    }
    assert(all.take(terms@.len() as int) == all);
    r
}

fn texts_of_iris(iris: &Vec<String>) -> (r: Vec<String>)
    ensures
        texts(r@) == iri_refs(texts(iris@)),
{
    let ghost all = iri_refs(texts(iris@));
    let mut r: Vec<String> = Vec::new();
    assert(texts(r@) =~= all.take(0));
    for i in 0..iris.len()
        invariant
            all == iri_refs(texts(iris@)),
            texts(r@) == all.take(i as int),
    {
        let x = iri_text(iris[i].as_str());
        proof {
            lemma_push_text(r@, x);
            lemma_take_next(all, i as int);
        }
        r.push(x);
    }
    assert(all.take(iris@.len() as int) == all);
    r
}

// ---------------------------------------------------------------------------
// Statements
// ---------------------------------------------------------------------------

/// What is said of a subject: predicates with their objects.
pub struct Props {
    pub list: Vec<(String, Vec<String>)>,
}

impl View for Props {
    type V = Seq<(Seq<char>, Seq<Seq<char>>)>;

    open spec fn view(&self) -> Seq<(Seq<char>, Seq<Seq<char>>)> {
        Seq::new(self.list@.len(), |i: int| (self.list@[i].0@, texts(self.list@[i].1@)))
    }
}

/// One more predicate, when it has objects.
pub open spec fn with_prop(
    props: Seq<(Seq<char>, Seq<Seq<char>>)>,
    pred: Seq<char>,
    objects: Seq<Seq<char>>,
) -> Seq<(Seq<char>, Seq<Seq<char>>)> {
    if objects.len() == 0 {
        props
    } else {
        props.push((pred, objects))
    }
}

/// The first `n` predicates with their objects in text.
pub open spec fn props_text(props: Seq<(Seq<char>, Seq<Seq<char>>)>, n: nat) -> Seq<char>
    decreases n,
{
    if n == 0 {
        Seq::empty()
    } else {
        props_text(props, (n - 1) as nat) + (if n == 1 {
            " "@
        } else {
            " ;\n    "@
        }) + props[n - 1].0 + " "@ + join(props[n - 1].1, ", "@)
    }
}

/// The statements about a subject in text.
pub open spec fn subject_text(
    subject: Seq<char>,
    props: Seq<(Seq<char>, Seq<Seq<char>>)>,
) -> Seq<char> {
    subject + props_text(props, props.len()) + " .\n\n"@
}

impl Props {
    fn new() -> (r: Props)
        ensures
            r@ == Seq::<(Seq<char>, Seq<Seq<char>>)>::empty(),
    {
        let r = Props { list: Vec::new() };
        assert(r@ =~= Seq::<(Seq<char>, Seq<Seq<char>>)>::empty());
        r
    }

    fn say(&mut self, pred: &str, objects: Vec<String>)
        ensures
            final(self)@ == with_prop(old(self)@, pred@, texts(objects@)),
    {
        let ghost before = self@;
        let ghost said = texts(objects@);
        assert(said.len() == objects@.len());
        if objects.len() > 0 {
            self.list.push((pred.to_string(), objects));
            assert(self@ =~= before.push((pred@, said)));
        }
    }

    fn say_one(&mut self, pred: &str, object: String)
        ensures
            final(self)@ == with_prop(old(self)@, pred@, seq![object@]),
    {
        let ghost text = object@;
        let mut objects: Vec<String> = Vec::new();
        objects.push(object);
        assert(texts(objects@) =~= seq![text]);
        self.say(pred, objects);
    }
}

fn push_subject(out: &mut String, subject: &str, props: &Props)
    ensures
        final(out)@ == old(out)@ + subject_text(subject@, props@),
{
    let mut text = String::new();
    for i in 0..props.list.len()
        invariant
            text@ == props_text(props@, i as nat),
    {
        assert(props@[i as int] == (props.list@[i as int].0@, texts(props.list@[i as int].1@)));
        if i == 0 {
            text.append(" ");
        } else {
            text.append(" ;\n    ");
        }
        text.append(props.list[i].0.as_str());
        text.append(" ");
        text.append(join_texts(&props.list[i].1, ", ").as_str());
    }
    let ghost was = out@;
    out.append(subject);
    out.append(text.as_str());
    out.append(" .\n\n");
    assert(out@ =~= was + subject_text(subject@, props@));
}

/// The literal of an optional text.
pub open spec fn opt_literal(value: Option<Seq<char>>) -> Seq<Seq<char>> {
    match value {
        Some(text) => seq![literal_of(text)],
        None => Seq::empty(),
    }
}

/// An optional ring level.
pub open spec fn opt_level(level: Option<u32>) -> Seq<Seq<char>> {
    match level {
        Some(n) => seq![decimal(n as nat)],
        None => Seq::empty(),
    }
}

fn literals(value: &Option<String>) -> (r: Vec<String>)
    ensures
        texts(r@) == opt_literal(opt_text(*value)),
{
    let mut r: Vec<String> = Vec::new();
    if let Some(text) = value {
        r.push(literal(text.as_str()));
    }
    assert(texts(r@) =~= opt_literal(opt_text(*value)));
    r
}

fn levels(level: Option<u32>) -> (r: Vec<String>)
    ensures
        texts(r@) == opt_level(level),
{
    let mut r: Vec<String> = Vec::new();
    if let Some(n) = level {
        r.push(decimal_text(n as u64));
    }
    assert(texts(r@) =~= opt_level(level));
    r
}

/// The terms of ring 0.
pub open spec fn top_terms(rings: Seq<RingModel>) -> Seq<Seq<char>>
    decreases rings.len(),
{
    if rings.len() == 0 {
        Seq::empty()
    } else if rings.last().level == 0 {
        top_terms(rings.drop_last()) + rings.last().terms
    } else {
        top_terms(rings.drop_last())
    }
}

/// The terms of ring 0.
pub fn top_concepts(rings: &Vec<ExportRing>) -> (r: Vec<String>)
    ensures
        texts(r@) == top_terms(export_rings_of(rings@)),
{
    let ghost all = export_rings_of(rings@);
    let mut r: Vec<String> = Vec::new();
    assert(texts(r@) =~= top_terms(all.take(0)));
    for i in 0..rings.len()
        invariant
            all == export_rings_of(rings@),
            texts(r@) == top_terms(all.take(i as int)),
    {
        assert(all.take(i + 1).drop_last() == all.take(i as int));
        assert(all.take(i + 1).last() == rings@[i as int]@);
        if rings[i].level == 0 {
            let terms = &rings[i].terms;
            let ghost before = texts(r@);
            let ghost more = texts(terms@);
            assert(before + more.take(0) =~= before);
            for k in 0..terms.len()
                invariant
                    more == texts(terms@),
                    texts(r@) == before + more.take(k as int),
            {
                proof {
                    lemma_push_text(r@, terms@[k as int]);
                    lemma_take_next(more, k as int);
                    assert((before + more.take(k as int)).push(more[k as int]) =~= before
                        + more.take(k + 1));
                }
                r.push(terms[k].clone());
            }
            assert(more.take(more.len() as int) == more);
        }
    }
    assert(all.take(rings@.len() as int) == all);
    r
}

/// What is said of the concept scheme.
pub open spec fn scheme_props(g: GraphModel) -> Seq<(Seq<char>, Seq<Seq<char>>)> {
    let p0 = Seq::<(Seq<char>, Seq<Seq<char>>)>::empty();
    let p1 = with_prop(p0, "a"@, seq!["skos:ConceptScheme"@]);
    let p2 = with_prop(p1, "rdfs:label"@, seq![literal_of(g.scheme_name)]);
    let p3 = with_prop(p2, "dcterms:description"@, seq![literal_of(g.scheme_description)]);
    with_prop(p3, "skos:hasTopConcept"@, term_refs(g.base_iri, top_terms(g.rings)))
}

/// What is said of a ring.
pub open spec fn ring_props(g: GraphModel, r: RingModel) -> Seq<(Seq<char>, Seq<Seq<char>>)> {
    let p0 = Seq::<(Seq<char>, Seq<Seq<char>>)>::empty();
    let p1 = with_prop(p0, "a"@, seq!["skos:Collection"@]);
    let p2 = with_prop(p1, "skos:inScheme"@, seq![iri_ref(g.base_iri)]);
    let p3 = with_prop(p2, "rdfs:label"@, seq![literal_of(r.name)]);
    let p4 = with_prop(p3, "dcterms:description"@, seq![literal_of(r.description)]);
    let p5 = with_prop(p4, "xl:ring"@, seq![decimal(r.level as nat)]);
    with_prop(p5, "skos:member"@, term_refs(g.base_iri, r.terms))
}

/// What is said of a concept.
pub open spec fn concept_props(
    g: GraphModel,
    n: ConceptModel,
) -> Seq<(Seq<char>, Seq<Seq<char>>)> {
    let p0 = Seq::<(Seq<char>, Seq<Seq<char>>)>::empty();
    let p1 = with_prop(p0, "a"@, seq!["skos:Concept"@]);
    let p2 = with_prop(p1, "skos:inScheme"@, seq![iri_ref(g.base_iri)]);
    let p3 = with_prop(p2, "skos:prefLabel"@, seq![literal_of(n.label)]);
    let p4 = with_prop(p3, "skos:definition"@, opt_literal(n.definition));
    let p5 = with_prop(p4, "xl:ring"@, opt_level(n.ring));
    let p6 = with_prop(p5, "xl:ontology"@, opt_literal(n.ontology));
    let p7 = with_prop(p6, "xl:axiology"@, opt_literal(n.axiology));
    let p8 = with_prop(p7, "xl:ethics"@, opt_literal(n.ethics));
    let p9 = with_prop(p8, "xl:epistemology"@, opt_literal(n.epistemology));
    let p10 = with_prop(p9, "skos:broader"@, term_refs(g.base_iri, n.broader));
    let p11 = with_prop(p10, "skos:narrower"@, term_refs(g.base_iri, n.narrower));
    let p12 = with_prop(p11, "skos:related"@, term_refs(g.base_iri, n.related));
    with_prop(p12, "rdfs:seeAlso"@, iri_refs(n.see_also))
}

/// The statements about the first `n` rings.
pub open spec fn rings_text(g: GraphModel, n: nat) -> Seq<char>
    decreases n,
{
    if n == 0 {
        Seq::empty()
    } else {
        rings_text(g, (n - 1) as nat) + subject_text(
            iri_ref(ring_iri_of(g.base_iri, g.rings[n - 1].level)),
            ring_props(g, g.rings[n - 1]),
        )
    }
}

/// The statements about the first `n` concepts.
pub open spec fn concepts_text(g: GraphModel, n: nat) -> Seq<char>
    decreases n,
{
    if n == 0 {
        Seq::empty()
    } else {
        concepts_text(g, (n - 1) as nat) + subject_text(
            iri_ref(term_iri_of(g.base_iri, g.nodes[n - 1].term)),
            concept_props(g, g.nodes[n - 1]),
        )
    }
}

/// The prefixes.
pub open spec fn prefixes_text(vocab_iri: Seq<char>) -> Seq<char> {
    "@prefix skos: <"@ + SKOS@ + "> .\n@prefix rdfs: <"@ + RDFS@ + "> .\n@prefix dcterms: <"@
        + DCTERMS@ + "> .\n@prefix xsd: <"@ + XSD@ + "> .\n@prefix xl: <"@ + vocab_iri
        + "> .\n\n"@
}

/// An export as Turtle: the prefixes, the scheme, the rings and the concepts.
pub open spec fn turtle(g: GraphModel) -> Seq<char> {
    prefixes_text(g.vocab_iri) + subject_text(iri_ref(g.base_iri), scheme_props(g)) + rings_text(
        g,
        g.rings.len(),
    ) + concepts_text(g, g.nodes.len())
}

fn props_of_scheme(g: &ExportGraph) -> (r: Props)
    ensures
        r@ == scheme_props(g@),
{
    let mut p = Props::new();
    p.say_one("a", "skos:ConceptScheme".to_string());
    p.say_one("rdfs:label", literal(g.scheme_name.as_str()));
    p.say_one("dcterms:description", literal(g.scheme_description.as_str()));
    let top = top_concepts(&g.rings);
    p.say("skos:hasTopConcept", texts_of_terms(g, &top));
    p
}

fn props_of_ring(g: &ExportGraph, r: &ExportRing) -> (p: Props)
    ensures
        p@ == ring_props(g@, r@),
{
    let mut p = Props::new();
    p.say_one("a", "skos:Collection".to_string());
    p.say_one("skos:inScheme", iri_text(g.base_iri.as_str()));
    p.say_one("rdfs:label", literal(r.name.as_str()));
    p.say_one("dcterms:description", literal(r.description.as_str()));
    p.say_one("xl:ring", decimal_text(r.level as u64));
    p.say("skos:member", texts_of_terms(g, &r.terms));
    p
}

fn props_of_concept(g: &ExportGraph, n: &ExportNode) -> (p: Props)
    ensures
        p@ == concept_props(g@, n@),
{
    let mut p = Props::new();
    p.say_one("a", "skos:Concept".to_string());
    p.say_one("skos:inScheme", iri_text(g.base_iri.as_str()));
    p.say_one("skos:prefLabel", literal(n.label.as_str()));
    p.say("skos:definition", literals(&n.definition));
    p.say("xl:ring", levels(n.ring));
    p.say("xl:ontology", literals(&n.ontology));
    p.say("xl:axiology", literals(&n.axiology));
    p.say("xl:ethics", literals(&n.ethics));
    p.say("xl:epistemology", literals(&n.epistemology));
    p.say("skos:broader", texts_of_terms(g, &n.broader));
    p.say("skos:narrower", texts_of_terms(g, &n.narrower));
    p.say("skos:related", texts_of_terms(g, &n.related));
    p.say("rdfs:seeAlso", texts_of_iris(&n.see_also));
    p
}

/// Serialize as Turtle 1.1.
pub fn to_turtle(g: &ExportGraph) -> (r: String)
    ensures
        r@ == turtle(g@),
{
    let mut out = "@prefix skos: <".to_string();
    out.append(SKOS);
    out.append("> .\n@prefix rdfs: <");
    out.append(RDFS);
    out.append("> .\n@prefix dcterms: <");
    out.append(DCTERMS);
    out.append("> .\n@prefix xsd: <");
    out.append(XSD);
    out.append("> .\n@prefix xl: <");
    out.append(g.vocab_iri.as_str());
    out.append("> .\n\n");
    let scheme = props_of_scheme(g);
    push_subject(&mut out, iri_text(g.base_iri.as_str()).as_str(), &scheme);
    let mut rings = String::new();
    for i in 0..g.rings.len()
        invariant
            rings@ == rings_text(g@, i as nat),
    {
        assert(g@.rings[i as int] == g.rings@[i as int]@);
        let p = props_of_ring(g, &g.rings[i]);
        let subject = iri_text(g.ring_iri(g.rings[i].level).as_str());
        push_subject(&mut rings, subject.as_str(), &p);
    }
    out.append(rings.as_str());
    let mut nodes = String::new();
    for i in 0..g.nodes.len()
        invariant
            nodes@ == concepts_text(g@, i as nat),
    {
        assert(g@.nodes[i as int] == g.nodes@[i as int]@);
        let p = props_of_concept(g, &g.nodes[i]);
        let subject = iri_text(g.term_iri(g.nodes[i].term.as_str()).as_str());
        push_subject(&mut nodes, subject.as_str(), &p);
    }
    out.append(nodes.as_str());
    out
}

// ---------------------------------------------------------------------------
// Laws
// ---------------------------------------------------------------------------

/// A character that breaks a line.
pub open spec fn breaks_line(c: char) -> bool {
    c == '\n' || c == '\r'
}

/// Any prose stays on one line as a literal, and no tab is left in it.
pub proof fn a_literal_stays_on_one_line(value: Seq<char>, i: int)
    requires
        0 <= i < turtle_escaped(value).len(),
    ensures
        !breaks_line(turtle_escaped(value)[i]),
        turtle_escaped(value)[i] != '\t',
    decreases value.len(),
{
    let first = turtle_escape(value[0]);
    if i >= first.len() {
        a_literal_stays_on_one_line(value.skip(1), i - first.len());
    }
}

/// Texts that are escaped alike are the same.
proof fn lemma_escaped_apart(a: Seq<char>, b: Seq<char>)
    requires
        turtle_escaped(a) == turtle_escaped(b),
    ensures
        a == b,
    decreases a.len(),
{
    if a.len() == 0 {
        if b.len() > 0 {
            assert(turtle_escaped(b).len() > 0);
        }
        assert(a =~= b);
    } else if b.len() == 0 {
        assert(turtle_escaped(a).len() > 0);
    } else {
        let ea = turtle_escape(a[0]);
        let eb = turtle_escape(b[0]);
        let sa = turtle_escaped(a);
        let sb = turtle_escaped(b);
        assert(sa[0] == ea[0]);
        assert(sb[0] == eb[0]);
        if ea.len() == 2 {
            assert(sa[1] == ea[1]);
        }
        if eb.len() == 2 {
            assert(sb[1] == eb[1]);
        }
        assert(a[0] == b[0]);
        assert(turtle_escaped(a.skip(1)) =~= sa.skip(ea.len() as int));
        assert(turtle_escaped(b.skip(1)) =~= sb.skip(eb.len() as int));
        lemma_escaped_apart(a.skip(1), b.skip(1));
        assert(a =~= seq![a[0]] + a.skip(1));
        assert(b =~= seq![b[0]] + b.skip(1));
    }
}

/// No two texts have the same literal.
pub proof fn literals_tell_texts_apart(a: Seq<char>, b: Seq<char>)
    requires
        literal_of(a) == literal_of(b),
    ensures
        a == b,
{
    let la = literal_of(a);
    let lb = literal_of(b);
    reveal_strlit("\"");
    reveal_strlit("\"@");
    reveal_strlit("en");
    assert(turtle_escaped(a) =~= la.subrange(1, la.len() - 4));
    assert(turtle_escaped(b) =~= lb.subrange(1, lb.len() - 4));
    lemma_escaped_apart(a, b);
}

}
