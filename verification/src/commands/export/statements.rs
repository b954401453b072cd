//! What an export says of its scheme, its rings and its concepts.

use vstd::prelude::*;

use crate::commands::export::jsonld::{
    concept_json, context_json, document_json, graph_json, id_json, iri_ids, lang_json,
    ring_json, scheme_json, term_ids, with_ids, with_lang, with_level,
};
use crate::commands::export::turtle::{
    concept_props, concepts_text, iri_ref, iri_refs, literal_of, literals_tell_texts_apart,
    opt_level, opt_literal, prefixes_text, props_text, ring_props, rings_text, scheme_props,
    subject_text, term_refs, top_terms, turtle, turtle_escaped, with_prop,
};
use crate::commands::export::{
    ConceptModel, GraphModel, DCTERMS, LANG, RDFS, SKOS, XSD,
};
use crate::config::RingModel;
use crate::json::JsonModel;
use crate::number::decimal;
use crate::text::{ends, has, join, lemma_has_more, lemma_has_part, starts};

verus! {

// ---------------------------------------------------------------------------
// Literals
// ---------------------------------------------------------------------------

/// The character that a letter after a backslash stands for.
pub open spec fn escape_meaning(c: char) -> char {
    if c == 'n' {
        '\n'
    } else if c == 'r' {
        '\r'
    } else if c == 't' {
        '\t'
    } else {
        c
    }
}

/// The text that the characters between the quotation marks of a literal
/// stand for.
pub open spec fn literal_value(s: Seq<char>) -> Seq<char>
    decreases s.len(),
{
    if s.len() == 0 {
        Seq::empty()
    } else if s[0] == '\\' && s.len() > 1 {
        seq![escape_meaning(s[1])] + literal_value(s.skip(2))
    } else {
        seq![s[0]] + literal_value(s.skip(1))
    }
}

/// A literal reads back as the text it was written for.
pub proof fn a_literal_reads_back(text: Seq<char>)
    ensures
        literal_value(turtle_escaped(text)) == text,
    decreases text.len(),
{
    let e = turtle_escaped(text);
    if text.len() > 0 {
        let rest = turtle_escaped(text.skip(1));
        a_literal_reads_back(text.skip(1));
        let c = text[0];
        if c == '\\' || c == '"' || c == '\n' || c == '\r' || c == '\t' {
            assert(e.skip(2) =~= rest);
            assert(e[0] == '\\');
            assert(escape_meaning(e[1]) == c);
        } else {
            assert(e.skip(1) =~= rest);
            assert(e[0] == c);
        }
        assert(seq![c] + text.skip(1) =~= text);
    } else {
        assert(text =~= Seq::<char>::empty());
    }
}

/// A text between quotation marks, marked as English.
pub open spec fn english(text: Seq<char>) -> Seq<char> {
    "\""@ + turtle_escaped(text) + "\"@en"@
}

/// An optional text as the objects of a statement.
pub open spec fn english_of(text: Option<Seq<char>>) -> Seq<Seq<char>> {
    match text {
        Some(t) => seq![english(t)],
        None => Seq::empty(),
    }
}

/// Terms as the objects of a statement: each behind the base IRI, between
/// angle brackets.
pub open spec fn references(base: Seq<char>, terms: Seq<Seq<char>>) -> Seq<Seq<char>> {
    Seq::new(terms.len(), |i: int| "<"@ + base + terms[i] + ">"@)
}

proof fn lemma_english(text: Seq<char>)
    ensures
        literal_of(text) == english(text),
{
    reveal_strlit("\"@");
    reveal_strlit("en");
    reveal_strlit("\"@en");
    assert("\"@"@ + LANG@ =~= "\"@en"@);
    assert(literal_of(text) =~= english(text));
}

proof fn lemma_english_of(text: Option<Seq<char>>)
    ensures
        opt_literal(text) == english_of(text),
{
    if let Some(t) = text {
        lemma_english(t);
    }
}

proof fn lemma_references(base: Seq<char>, terms: Seq<Seq<char>>)
    ensures
        term_refs(base, terms) == references(base, terms),
{
    assert forall|i: int| 0 <= i < terms.len() implies #[trigger] term_refs(base, terms)[i]
        == references(base, terms)[i] by {
        assert("<"@ + (base + terms[i]) + ">"@ =~= "<"@ + base + terms[i] + ">"@);
    }
    assert(term_refs(base, terms) =~= references(base, terms));
}

proof fn lemma_outside(iris: Seq<Seq<char>>)
    ensures
        iri_refs(iris) == references(Seq::empty(), iris),
{
    assert forall|i: int| 0 <= i < iris.len() implies #[trigger] iri_refs(iris)[i] == references(
        Seq::empty(),
        iris,
    )[i] by {
        assert("<"@ + Seq::<char>::empty() + iris[i] + ">"@ =~= "<"@ + iris[i] + ">"@);
    }
    assert(iri_refs(iris) =~= references(Seq::empty(), iris));
}

// ---------------------------------------------------------------------------
// Statements in Turtle
// ---------------------------------------------------------------------------

/// One entry for the predicate, with these objects; none where there are no
/// objects.
pub open spec fn says(
    props: Seq<(Seq<char>, Seq<Seq<char>>)>,
    pred: Seq<char>,
    objects: Seq<Seq<char>>,
) -> bool {
    if objects.len() == 0 {
        forall|i: int| 0 <= i < props.len() ==> (#[trigger] props[i]).0 != pred
    } else {
        exists|i: int| #[trigger] says_at(props, pred, objects, i)
    }
}

/// The entry at a place, and no other, is for the predicate.
pub open spec fn says_at(
    props: Seq<(Seq<char>, Seq<Seq<char>>)>,
    pred: Seq<char>,
    objects: Seq<Seq<char>>,
    i: int,
) -> bool {
    &&& 0 <= i < props.len()
    &&& props[i] == (pred, objects)
    &&& forall|j: int| 0 <= j < props.len() && j != i ==> (#[trigger] props[j]).0 != pred
}

proof fn lemma_says_more(
    props: Seq<(Seq<char>, Seq<Seq<char>>)>,
    pred: Seq<char>,
    objects: Seq<Seq<char>>,
)
    requires
        says(props, pred, Seq::empty()),
    ensures
        says(with_prop(props, pred, objects), pred, objects),
        forall|q: Seq<char>, o: Seq<Seq<char>>|
            q != pred && says(props, q, o) ==> #[trigger] says(
                with_prop(props, pred, objects),
                q,
                o,
            ),
{
    let more = with_prop(props, pred, objects);
    if objects.len() > 0 {
        assert(says_at(more, pred, objects, props.len() as int));
        assert forall|q: Seq<char>, o: Seq<Seq<char>>|
            q != pred && says(props, q, o) implies #[trigger] says(more, q, o) by {
            if o.len() > 0 {
                let i = choose|i: int| #[trigger] says_at(props, q, o, i);
                assert(more[i] == props[i]);
                assert forall|j: int| 0 <= j < more.len() && j != i implies (
                #[trigger] more[j]).0 != q by {
                    if j < props.len() {
                        assert(more[j] == props[j]);
                    }
                }
                assert(says_at(more, q, o, i));
            } else {
                assert forall|j: int| 0 <= j < more.len() implies (#[trigger] more[j]).0 != q by {
                    if j < props.len() {
                        assert(more[j] == props[j]);
                    }
                }
            }
        }
    } else {
        assert(objects =~= Seq::empty());
    }
}

proof fn lemma_concept_predicates()
    ensures
        "a"@.len() == 1,
        "skos:inScheme"@.len() == 13,
        "skos:prefLabel"@.len() == 14,
        "skos:definition"@.len() == 15,
        "xl:ring"@.len() == 7,
        "xl:ontology"@.len() == 11,
        "xl:axiology"@.len() == 11,
        "xl:ethics"@.len() == 9,
        "xl:epistemology"@.len() == 15,
        "skos:broader"@.len() == 12,
        "skos:narrower"@.len() == 13,
        "skos:related"@.len() == 12,
        "rdfs:seeAlso"@.len() == 12,
        "skos:inScheme"@ != "skos:narrower"@,
        "skos:definition"@ != "xl:epistemology"@,
        "xl:ontology"@ != "xl:axiology"@,
        "skos:broader"@ != "skos:related"@,
        "skos:broader"@ != "rdfs:seeAlso"@,
        "skos:related"@ != "rdfs:seeAlso"@,
{
    reveal_strlit("a");
    reveal_strlit("skos:inScheme");
    reveal_strlit("skos:prefLabel");
    reveal_strlit("skos:definition");
    reveal_strlit("xl:ring");
    reveal_strlit("xl:ontology");
    reveal_strlit("xl:axiology");
    reveal_strlit("xl:ethics");
    reveal_strlit("xl:epistemology");
    reveal_strlit("skos:broader");
    reveal_strlit("skos:narrower");
    reveal_strlit("skos:related");
    reveal_strlit("rdfs:seeAlso");
    assert("skos:inScheme"@[5] != "skos:narrower"@[5]);
    assert("skos:definition"@[0] != "xl:epistemology"@[0]);
    assert("xl:ontology"@[3] != "xl:axiology"@[3]);
    assert("skos:broader"@[5] != "skos:related"@[5]);
    assert("skos:broader"@[0] != "rdfs:seeAlso"@[0]);
    assert("skos:related"@[0] != "rdfs:seeAlso"@[0]);
}

/// What the Turtle of a concept says: its type, its scheme and its label; its
/// definition, its ring and each of its four sections, where it has them,
/// each once and under its own predicate; and its links by their relation.
pub proof fn a_concept_is_said_in_turtle(g: GraphModel, n: ConceptModel)
    ensures
        says(concept_props(g, n), "a"@, seq!["skos:Concept"@]),
        says(concept_props(g, n), "skos:inScheme"@, seq!["<"@ + g.base_iri + ">"@]),
        says(concept_props(g, n), "skos:prefLabel"@, seq![english(n.label)]),
        says(concept_props(g, n), "skos:definition"@, english_of(n.definition)),
        n.ring matches Some(level) ==> says(
            concept_props(g, n),
            "xl:ring"@,
            seq![decimal(level as nat)],
        ),
        n.ring is None ==> says(concept_props(g, n), "xl:ring"@, Seq::empty()),
        says(concept_props(g, n), "xl:ontology"@, english_of(n.ontology)),
        says(concept_props(g, n), "xl:axiology"@, english_of(n.axiology)),
        says(concept_props(g, n), "xl:ethics"@, english_of(n.ethics)),
        says(concept_props(g, n), "xl:epistemology"@, english_of(n.epistemology)),
        says(concept_props(g, n), "skos:broader"@, references(g.base_iri, n.broader)),
        says(concept_props(g, n), "skos:narrower"@, references(g.base_iri, n.narrower)),
        says(concept_props(g, n), "skos:related"@, references(g.base_iri, n.related)),
        says(concept_props(g, n), "rdfs:seeAlso"@, references(Seq::empty(), n.see_also)),
{
    lemma_concept_predicates();
    lemma_english(n.label);
    lemma_english_of(n.definition);
    lemma_english_of(n.ontology);
    lemma_english_of(n.axiology);
    lemma_english_of(n.ethics);
    lemma_english_of(n.epistemology);
    lemma_references(g.base_iri, n.broader);
    lemma_references(g.base_iri, n.narrower);
    lemma_references(g.base_iri, n.related);
    lemma_outside(n.see_also);
    let p0 = Seq::<(Seq<char>, Seq<Seq<char>>)>::empty();
    let p1 = with_prop(p0, "a"@, seq!["skos:Concept"@]);
    let p2 = with_prop(p1, "skos:inScheme"@, seq![iri_ref(g.base_iri)]);
    let p3 = with_prop(p2, "skos:prefLabel"@, seq![english(n.label)]);
    let p4 = with_prop(p3, "skos:definition"@, english_of(n.definition));
    let p5 = with_prop(p4, "xl:ring"@, opt_level(n.ring));
    let p6 = with_prop(p5, "xl:ontology"@, english_of(n.ontology));
    let p7 = with_prop(p6, "xl:axiology"@, english_of(n.axiology));
    let p8 = with_prop(p7, "xl:ethics"@, english_of(n.ethics));
    let p9 = with_prop(p8, "xl:epistemology"@, english_of(n.epistemology));
    let p10 = with_prop(p9, "skos:broader"@, references(g.base_iri, n.broader));
    let p11 = with_prop(p10, "skos:narrower"@, references(g.base_iri, n.narrower));
    let p12 = with_prop(p11, "skos:related"@, references(g.base_iri, n.related));
    lemma_says_more(p0, "a"@, seq!["skos:Concept"@]);
    lemma_says_more(p1, "skos:inScheme"@, seq![iri_ref(g.base_iri)]);
    lemma_says_more(p2, "skos:prefLabel"@, seq![english(n.label)]);
    lemma_says_more(p3, "skos:definition"@, english_of(n.definition));
    lemma_says_more(p4, "xl:ring"@, opt_level(n.ring));
    lemma_says_more(p5, "xl:ontology"@, english_of(n.ontology));
    lemma_says_more(p6, "xl:axiology"@, english_of(n.axiology));
    lemma_says_more(p7, "xl:ethics"@, english_of(n.ethics));
    lemma_says_more(p8, "xl:epistemology"@, english_of(n.epistemology));
    lemma_says_more(p9, "skos:broader"@, references(g.base_iri, n.broader));
    lemma_says_more(p10, "skos:narrower"@, references(g.base_iri, n.narrower));
    lemma_says_more(p11, "skos:related"@, references(g.base_iri, n.related));
    lemma_says_more(p12, "rdfs:seeAlso"@, references(Seq::empty(), n.see_also));
}

proof fn lemma_other_predicates()
    ensures
        "a"@.len() == 1,
        "skos:inScheme"@.len() == 13,
        "xl:ring"@.len() == 7,
        "rdfs:label"@.len() == 10,
        "dcterms:description"@.len() == 19,
        "skos:hasTopConcept"@.len() == 18,
        "skos:member"@.len() == 11,
{
    reveal_strlit("a");
    reveal_strlit("skos:inScheme");
    reveal_strlit("xl:ring");
    reveal_strlit("rdfs:label");
    reveal_strlit("dcterms:description");
    reveal_strlit("skos:hasTopConcept");
    reveal_strlit("skos:member");
}

/// What the Turtle of the scheme says: its type, its name and its description
/// as the manifest gives them, and the terms of ring 0.
pub proof fn the_scheme_is_said_in_turtle(g: GraphModel)
    ensures
        says(scheme_props(g), "a"@, seq!["skos:ConceptScheme"@]),
        says(scheme_props(g), "rdfs:label"@, seq![english(g.scheme_name)]),
        says(scheme_props(g), "dcterms:description"@, seq![english(g.scheme_description)]),
        says(
            scheme_props(g),
            "skos:hasTopConcept"@,
            references(g.base_iri, top_terms(g.rings)),
        ),
{
    lemma_english(g.scheme_name);
    lemma_english(g.scheme_description);
    lemma_references(g.base_iri, top_terms(g.rings));
    lemma_other_predicates();
    let p0 = Seq::<(Seq<char>, Seq<Seq<char>>)>::empty();
    let p1 = with_prop(p0, "a"@, seq!["skos:ConceptScheme"@]);
    let p2 = with_prop(p1, "rdfs:label"@, seq![english(g.scheme_name)]);
    let p3 = with_prop(p2, "dcterms:description"@, seq![english(g.scheme_description)]);
    lemma_says_more(p0, "a"@, seq!["skos:ConceptScheme"@]);
    lemma_says_more(p1, "rdfs:label"@, seq![english(g.scheme_name)]);
    lemma_says_more(p2, "dcterms:description"@, seq![english(g.scheme_description)]);
    lemma_says_more(p3, "skos:hasTopConcept"@, references(g.base_iri, top_terms(g.rings)));
}

/// What the Turtle of a ring says: its type, its scheme, its name, its
/// description and its level, and its terms as members.
pub proof fn a_ring_is_said_in_turtle(g: GraphModel, r: RingModel)
    ensures
        says(ring_props(g, r), "a"@, seq!["skos:Collection"@]),
        says(ring_props(g, r), "skos:inScheme"@, seq!["<"@ + g.base_iri + ">"@]),
        says(ring_props(g, r), "rdfs:label"@, seq![english(r.name)]),
        says(ring_props(g, r), "dcterms:description"@, seq![english(r.description)]),
        says(ring_props(g, r), "xl:ring"@, seq![decimal(r.level as nat)]),
        says(ring_props(g, r), "skos:member"@, references(g.base_iri, r.terms)),
{
    lemma_english(r.name);
    lemma_english(r.description);
    lemma_references(g.base_iri, r.terms);
    lemma_other_predicates();
    let p0 = Seq::<(Seq<char>, Seq<Seq<char>>)>::empty();
    let p1 = with_prop(p0, "a"@, seq!["skos:Collection"@]);
    let p2 = with_prop(p1, "skos:inScheme"@, seq![iri_ref(g.base_iri)]);
    let p3 = with_prop(p2, "rdfs:label"@, seq![english(r.name)]);
    let p4 = with_prop(p3, "dcterms:description"@, seq![english(r.description)]);
    let p5 = with_prop(p4, "xl:ring"@, seq![decimal(r.level as nat)]);
    lemma_says_more(p0, "a"@, seq!["skos:Collection"@]);
    lemma_says_more(p1, "skos:inScheme"@, seq![iri_ref(g.base_iri)]);
    lemma_says_more(p2, "rdfs:label"@, seq![english(r.name)]);
    lemma_says_more(p3, "dcterms:description"@, seq![english(r.description)]);
    lemma_says_more(p4, "xl:ring"@, seq![decimal(r.level as nat)]);
    lemma_says_more(p5, "skos:member"@, references(g.base_iri, r.terms));
}

// ---------------------------------------------------------------------------
// Their text
// ---------------------------------------------------------------------------

/// One more statement about a subject in text; nothing without objects.
pub open spec fn statement(pred: Seq<char>, objects: Seq<Seq<char>>) -> Seq<char> {
    if objects.len() == 0 {
        Seq::empty()
    } else {
        " ;\n    "@ + pred + " "@ + join(objects, ", "@)
    }
}

/// The text of all that is said of a subject.
spec fn said(props: Seq<(Seq<char>, Seq<Seq<char>>)>) -> Seq<char> {
    props_text(props, props.len())
}

proof fn lemma_props_text_front(
    props: Seq<(Seq<char>, Seq<Seq<char>>)>,
    more: Seq<(Seq<char>, Seq<Seq<char>>)>,
    n: nat,
)
    requires
        n <= props.len(),
        n <= more.len(),
        forall|i: int| 0 <= i < n ==> props[i] == more[i],
    ensures
        props_text(props, n) == props_text(more, n),
    decreases n,
{
    if n > 0 {
        lemma_props_text_front(props, more, (n - 1) as nat);
    }
}

proof fn lemma_said_more(
    props: Seq<(Seq<char>, Seq<Seq<char>>)>,
    pred: Seq<char>,
    objects: Seq<Seq<char>>,
)
    requires
        props.len() > 0,
    ensures
        with_prop(props, pred, objects).len() > 0,
        said(with_prop(props, pred, objects)) == said(props) + statement(pred, objects),
{
    let more = with_prop(props, pred, objects);
    if objects.len() > 0 {
        lemma_props_text_front(props, more, props.len());
        assert(said(more) =~= said(props) + statement(pred, objects));
    } else {
        assert(said(props) + statement(pred, objects) =~= said(props));
    }
}

/// What comes before the section of a concept in its statements.
spec fn said_before_sections(g: GraphModel, n: ConceptModel) -> Seq<char> {
    " a "@ + join(seq!["skos:Concept"@], ", "@) + statement(
        "skos:inScheme"@,
        seq![iri_ref(g.base_iri)],
    ) + statement("skos:prefLabel"@, seq![english(n.label)]) + statement(
        "skos:definition"@,
        english_of(n.definition),
    ) + statement("xl:ring"@, opt_level(n.ring))
}

/// What comes behind the sections of a concept in its statements.
spec fn said_behind_sections(g: GraphModel, n: ConceptModel) -> Seq<char> {
    statement("skos:broader"@, references(g.base_iri, n.broader)) + statement(
        "skos:narrower"@,
        references(g.base_iri, n.narrower),
    ) + statement("skos:related"@, references(g.base_iri, n.related)) + statement(
        "rdfs:seeAlso"@,
        references(Seq::empty(), n.see_also),
    )
}

proof fn lemma_first_said(kind: Seq<char>)
    ensures
        said(with_prop(Seq::empty(), "a"@, seq![kind])) == " a "@ + join(seq![kind], ", "@),
        with_prop(Seq::empty(), "a"@, seq![kind]).len() > 0,
{
    let p = with_prop(Seq::empty(), "a"@, seq![kind]);
    reveal_strlit(" ");
    reveal_strlit("a");
    reveal_strlit(" a ");
    assert(props_text(p, 0) =~= Seq::<char>::empty());
    assert(p[0] == ("a"@, seq![kind]));
    assert(" "@ + "a"@ + " "@ =~= " a "@);
    assert(said(p) =~= " "@ + "a"@ + " "@ + join(seq![kind], ", "@));
}

proof fn lemma_sum(f: Seq<char>, a: Seq<char>, b: Seq<char>, c: Seq<char>, d: Seq<char>)
    ensures
        f + a + b + c + d == f + (a + b + c + d),
{
    assert(f + a + b + c + d =~= f + (a + b + c + d));
}

proof fn lemma_concept_said(g: GraphModel, n: ConceptModel)
    ensures
        said(concept_props(g, n)) == said_before_sections(g, n) + statement(
            "xl:ontology"@,
            english_of(n.ontology),
        ) + statement("xl:axiology"@, english_of(n.axiology)) + statement(
            "xl:ethics"@,
            english_of(n.ethics),
        ) + statement("xl:epistemology"@, english_of(n.epistemology)) + said_behind_sections(g, n),
{
    lemma_english(n.label);
    lemma_english_of(n.definition);
    lemma_english_of(n.ontology);
    lemma_english_of(n.axiology);
    lemma_english_of(n.ethics);
    lemma_english_of(n.epistemology);
    lemma_references(g.base_iri, n.broader);
    lemma_references(g.base_iri, n.narrower);
    lemma_references(g.base_iri, n.related);
    lemma_outside(n.see_also);
    let p0 = Seq::<(Seq<char>, Seq<Seq<char>>)>::empty();
    let p1 = with_prop(p0, "a"@, seq!["skos:Concept"@]);
    let p2 = with_prop(p1, "skos:inScheme"@, seq![iri_ref(g.base_iri)]);
    let p3 = with_prop(p2, "skos:prefLabel"@, seq![english(n.label)]);
    let p4 = with_prop(p3, "skos:definition"@, english_of(n.definition));
    let p5 = with_prop(p4, "xl:ring"@, opt_level(n.ring));
    let p6 = with_prop(p5, "xl:ontology"@, english_of(n.ontology));
    let p7 = with_prop(p6, "xl:axiology"@, english_of(n.axiology));
    let p8 = with_prop(p7, "xl:ethics"@, english_of(n.ethics));
    let p9 = with_prop(p8, "xl:epistemology"@, english_of(n.epistemology));
    let p10 = with_prop(p9, "skos:broader"@, references(g.base_iri, n.broader));
    let p11 = with_prop(p10, "skos:narrower"@, references(g.base_iri, n.narrower));
    let p12 = with_prop(p11, "skos:related"@, references(g.base_iri, n.related));
    lemma_first_said("skos:Concept"@);
    lemma_said_more(p1, "skos:inScheme"@, seq![iri_ref(g.base_iri)]);
    lemma_said_more(p2, "skos:prefLabel"@, seq![english(n.label)]);
    lemma_said_more(p3, "skos:definition"@, english_of(n.definition));
    lemma_said_more(p4, "xl:ring"@, opt_level(n.ring));
    lemma_said_more(p5, "xl:ontology"@, english_of(n.ontology));
    lemma_said_more(p6, "xl:axiology"@, english_of(n.axiology));
    lemma_said_more(p7, "xl:ethics"@, english_of(n.ethics));
    lemma_said_more(p8, "xl:epistemology"@, english_of(n.epistemology));
    lemma_said_more(p9, "skos:broader"@, references(g.base_iri, n.broader));
    lemma_said_more(p10, "skos:narrower"@, references(g.base_iri, n.narrower));
    lemma_said_more(p11, "skos:related"@, references(g.base_iri, n.related));
    lemma_said_more(p12, "rdfs:seeAlso"@, references(Seq::empty(), n.see_also));
    lemma_sum(
        said(p9),
        statement("skos:broader"@, references(g.base_iri, n.broader)),
        statement("skos:narrower"@, references(g.base_iri, n.narrower)),
        statement("skos:related"@, references(g.base_iri, n.related)),
        statement("rdfs:seeAlso"@, references(Seq::empty(), n.see_also)),
    );
}

/// Two texts with the same front and the same end are the same only where
/// their middles are.
proof fn lemma_same_middle(front: Seq<char>, a: Seq<char>, b: Seq<char>, end: Seq<char>)
    requires
        front + a + end == front + b + end,
    ensures
        a == b,
{
    let x = front + a + end;
    let y = front + b + end;
    assert(x.len() == y.len());
    assert(a =~= x.subrange(front.len() as int, (front.len() + a.len()) as int));
    assert(b =~= y.subrange(front.len() as int, (front.len() + b.len()) as int));
}

proof fn lemma_one_joined(x: Seq<char>, sep: Seq<char>)
    ensures
        join(seq![x], sep) == x,
{
    assert(seq![x].drop_last() =~= Seq::<Seq<char>>::empty());
    assert(seq![x].last() == x);
    assert(join(seq![x], sep) =~= x);
}

proof fn lemma_same_section(pred: Seq<char>, a: Option<Seq<char>>, b: Option<Seq<char>>)
    requires
        statement(pred, english_of(a)) == statement(pred, english_of(b)),
    ensures
        a == b,
{
    reveal_strlit(" ;\n    ");
    assert(" ;\n    "@.len() > 0);
    match (a, b) {
        (Some(x), Some(y)) => {
            lemma_one_joined(english(x), ", "@);
            lemma_one_joined(english(y), ", "@);
            let front = " ;\n    "@ + pred + " "@;
            let end = Seq::<char>::empty();
            assert(front + english(x) + end =~= statement(pred, english_of(a)));
            assert(front + english(y) + end =~= statement(pred, english_of(b)));
            lemma_same_middle(front, english(x), english(y), end);
            lemma_english(x);
            lemma_english(y);
            literals_tell_texts_apart(x, y);
        },
        (Some(x), None) => {
            assert(english_of(a).len() == 1 && english_of(b).len() == 0);
            assert(statement(pred, english_of(a)).len() >= " ;\n    "@.len());
        },
        (None, Some(y)) => {
            assert(english_of(b).len() == 1 && english_of(a).len() == 0);
            assert(statement(pred, english_of(b)).len() >= " ;\n    "@.len());
        },
        (None, None) => {},
    }
}

/// A text in six pieces, each of the four between the first and the last in
/// the middle.
proof fn lemma_middles(
    x: Seq<char>,
    a: Seq<char>,
    b: Seq<char>,
    c: Seq<char>,
    d: Seq<char>,
    y: Seq<char>,
)
    ensures
        x + a + b + c + d + y == x + a + (b + c + d + y),
        x + a + b + c + d + y == x + a + b + (c + d + y),
        x + a + b + c + d + y == x + a + b + c + (d + y),
{
    assert(x + a + b + c + d + y =~= x + a + (b + c + d + y));
    assert(x + a + b + c + d + y =~= x + a + b + (c + d + y));
    assert(x + a + b + c + d + y =~= x + a + b + c + (d + y));
}

/// The statements about a concept in text, the four sections between what
/// comes before and behind them.
spec fn concept_pieces(
    g: GraphModel,
    subject: Seq<char>,
    n: ConceptModel,
) -> Seq<char> {
    (subject + said_before_sections(g, n)) + statement("xl:ontology"@, english_of(n.ontology))
        + statement("xl:axiology"@, english_of(n.axiology)) + statement(
        "xl:ethics"@,
        english_of(n.ethics),
    ) + statement("xl:epistemology"@, english_of(n.epistemology)) + (said_behind_sections(g, n)
        + " .\n\n"@)
}

proof fn lemma_concept_pieces(g: GraphModel, subject: Seq<char>, n: ConceptModel)
    ensures
        subject_text(subject, concept_props(g, n)) == concept_pieces(g, subject, n),
{
    lemma_concept_said(g, n);
    lemma_around(
        subject,
        said_before_sections(g, n),
        statement("xl:ontology"@, english_of(n.ontology)),
        statement("xl:axiology"@, english_of(n.axiology)),
        statement("xl:ethics"@, english_of(n.ethics)),
        statement("xl:epistemology"@, english_of(n.epistemology)),
        said_behind_sections(g, n),
        " .\n\n"@,
    );
}

proof fn lemma_around(
    s: Seq<char>,
    x: Seq<char>,
    a: Seq<char>,
    b: Seq<char>,
    c: Seq<char>,
    d: Seq<char>,
    y: Seq<char>,
    e: Seq<char>,
)
    ensures
        s + (x + a + b + c + d + y) + e == (s + x) + a + b + c + d + (y + e),
{
    assert(s + (x + a + b + c + d + y) + e =~= (s + x) + a + b + c + d + (y + e));
}

/// Two nodes that differ in one of the four sections differ in their Turtle,
/// whichever the section is.
pub proof fn a_section_shows_in_the_turtle(
    g: GraphModel,
    subject: Seq<char>,
    n: ConceptModel,
    text: Option<Seq<char>>,
)
    ensures
        text != n.ontology ==> subject_text(
            subject,
            concept_props(g, (ConceptModel { ontology: text, ..n })),
        ) != subject_text(subject, concept_props(g, n)),
        text != n.axiology ==> subject_text(
            subject,
            concept_props(g, (ConceptModel { axiology: text, ..n })),
        ) != subject_text(subject, concept_props(g, n)),
        text != n.ethics ==> subject_text(
            subject,
            concept_props(g, (ConceptModel { ethics: text, ..n })),
        ) != subject_text(subject, concept_props(g, n)),
        text != n.epistemology ==> subject_text(
            subject,
            concept_props(g, (ConceptModel { epistemology: text, ..n })),
        ) != subject_text(subject, concept_props(g, n)),
{
    let x = subject + said_before_sections(g, n);
    let y = said_behind_sections(g, n) + " .\n\n"@;
    let s1 = statement("xl:ontology"@, english_of(n.ontology));
    let s2 = statement("xl:axiology"@, english_of(n.axiology));
    let s3 = statement("xl:ethics"@, english_of(n.ethics));
    let s4 = statement("xl:epistemology"@, english_of(n.epistemology));
    let t1 = statement("xl:ontology"@, english_of(text));
    let t2 = statement("xl:axiology"@, english_of(text));
    let t3 = statement("xl:ethics"@, english_of(text));
    let t4 = statement("xl:epistemology"@, english_of(text));
    let now = subject_text(subject, concept_props(g, n));
    lemma_concept_pieces(g, subject, n);
    lemma_concept_pieces(g, subject, (ConceptModel { ontology: text, ..n }));
    lemma_concept_pieces(g, subject, (ConceptModel { axiology: text, ..n }));
    lemma_concept_pieces(g, subject, (ConceptModel { ethics: text, ..n }));
    lemma_concept_pieces(g, subject, (ConceptModel { epistemology: text, ..n }));
    lemma_middles(x, s1, s2, s3, s4, y);
    lemma_middles(x, t1, s2, s3, s4, y);
    lemma_middles(x, s1, t2, s3, s4, y);
    lemma_middles(x, s1, s2, t3, s4, y);
    if now == x + t1 + s2 + s3 + s4 + y {
        lemma_same_middle(x, s1, t1, s2 + s3 + s4 + y);
        lemma_same_section("xl:ontology"@, n.ontology, text);
    }
    if now == x + s1 + t2 + s3 + s4 + y {
        lemma_same_middle(x + s1, s2, t2, s3 + s4 + y);
        lemma_same_section("xl:axiology"@, n.axiology, text);
    }
    if now == x + s1 + s2 + t3 + s4 + y {
        lemma_same_middle(x + s1 + s2, s3, t3, s4 + y);
        lemma_same_section("xl:ethics"@, n.ethics, text);
    }
    if now == x + s1 + s2 + s3 + t4 + y {
        lemma_same_middle(x + s1 + s2 + s3, s4, t4, y);
        lemma_same_section("xl:epistemology"@, n.epistemology, text);
    }
}

// ---------------------------------------------------------------------------
// The Turtle document
// ---------------------------------------------------------------------------

/// The line that declares a prefix.
pub open spec fn prefix_line(name: Seq<char>, iri: Seq<char>) -> Seq<char> {
    "@prefix "@ + name + ": <"@ + iri + "> .\n"@
}

/// The text that opens a prefix declaration.
spec fn prefix_open(name: Seq<char>) -> Seq<char> {
    "@prefix "@ + name + ": <"@
}

proof fn lemma_prefix_openings()
    ensures
        "@prefix skos: <"@ == prefix_open("skos"@),
        "> .\n@prefix rdfs: <"@ == "> .\n"@ + prefix_open("rdfs"@),
        "> .\n@prefix dcterms: <"@ == "> .\n"@ + prefix_open("dcterms"@),
        "> .\n@prefix xsd: <"@ == "> .\n"@ + prefix_open("xsd"@),
        "> .\n@prefix xl: <"@ == "> .\n"@ + prefix_open("xl"@),
        "> .\n\n"@ == "> .\n"@ + "\n"@,
{
    reveal_strlit("@prefix ");
    reveal_strlit(": <");
    reveal_strlit("> .\n");
    reveal_strlit("\n");
    reveal_strlit("> .\n\n");
    reveal_strlit("skos");
    reveal_strlit("rdfs");
    reveal_strlit("dcterms");
    reveal_strlit("xsd");
    reveal_strlit("xl");
    reveal_strlit("@prefix skos: <");
    reveal_strlit("> .\n@prefix rdfs: <");
    reveal_strlit("> .\n@prefix dcterms: <");
    reveal_strlit("> .\n@prefix xsd: <");
    reveal_strlit("> .\n@prefix xl: <");
    assert("@prefix skos: <"@ =~= prefix_open("skos"@));
    assert("> .\n@prefix rdfs: <"@ =~= "> .\n"@ + prefix_open("rdfs"@));
    assert("> .\n@prefix dcterms: <"@ =~= "> .\n"@ + prefix_open("dcterms"@));
    assert("> .\n@prefix xsd: <"@ =~= "> .\n"@ + prefix_open("xsd"@));
    assert("> .\n@prefix xl: <"@ =~= "> .\n"@ + prefix_open("xl"@));
    assert("> .\n\n"@ =~= "> .\n"@ + "\n"@);
}

/// A text, an IRI and an opening in one: the line is closed before the next
/// one opens.
proof fn lemma_prefix_step(front: Seq<char>, open: Seq<char>, iri: Seq<char>, next: Seq<char>)
    ensures
        front + open + iri + ("> .\n"@ + next) == front + (open + iri + "> .\n"@) + next,
{
    assert(front + open + iri + ("> .\n"@ + next) =~= front + (open + iri + "> .\n"@) + next);
}

proof fn lemma_prefix_lines(vocab_iri: Seq<char>)
    ensures
        prefixes_text(vocab_iri) == prefix_line("skos"@, SKOS@) + prefix_line("rdfs"@, RDFS@)
            + prefix_line("dcterms"@, DCTERMS@) + prefix_line("xsd"@, XSD@) + prefix_line(
            "xl"@,
            vocab_iri,
        ) + "\n"@,
{
    lemma_prefix_openings();
    let none = Seq::<char>::empty();
    let l1 = prefix_line("skos"@, SKOS@);
    let l2 = prefix_line("rdfs"@, RDFS@);
    let l3 = prefix_line("dcterms"@, DCTERMS@);
    let l4 = prefix_line("xsd"@, XSD@);
    assert(none + prefix_open("skos"@) =~= prefix_open("skos"@));
    assert(none + l1 =~= l1);
    lemma_prefix_step(none, prefix_open("skos"@), SKOS@, prefix_open("rdfs"@));
    lemma_prefix_step(l1, prefix_open("rdfs"@), RDFS@, prefix_open("dcterms"@));
    lemma_prefix_step(l1 + l2, prefix_open("dcterms"@), DCTERMS@, prefix_open("xsd"@));
    lemma_prefix_step(l1 + l2 + l3, prefix_open("xsd"@), XSD@, prefix_open("xl"@));
    lemma_prefix_step(l1 + l2 + l3 + l4, prefix_open("xl"@), vocab_iri, "\n"@);
}

proof fn lemma_in_turtle(g: GraphModel, x: Seq<char>, p: Seq<char>, y: Seq<char>)
    requires
        prefixes_text(g.vocab_iri) == x + p + y,
    ensures
        has(turtle(g), p),
{
    lemma_has_part(x, p, y);
    let scheme = subject_text(iri_ref(g.base_iri), scheme_props(g));
    let rings = rings_text(g, g.rings.len());
    let nodes = concepts_text(g, g.nodes.len());
    let none = Seq::<char>::empty();
    lemma_has_more(none, x + p + y, scheme + rings + nodes, p);
    assert(turtle(g) =~= none + (x + p + y) + (scheme + rings + nodes));
}

/// The Turtle document declares the prefixes of SKOS, RDF Schema, the Dublin
/// Core terms and the XML Schema datatypes for their namespaces, and that of
/// the vocabulary for the vocabulary IRI of the export.
pub proof fn the_turtle_declares_its_prefixes(g: GraphModel)
    ensures
        has(turtle(g), prefix_line("skos"@, "http://www.w3.org/2004/02/skos/core#"@)),
        has(turtle(g), prefix_line("rdfs"@, "http://www.w3.org/2000/01/rdf-schema#"@)),
        has(turtle(g), prefix_line("dcterms"@, "http://purl.org/dc/terms/"@)),
        has(turtle(g), prefix_line("xsd"@, "http://www.w3.org/2001/XMLSchema#"@)),
        has(turtle(g), prefix_line("xl"@, g.vocab_iri)),
{
    lemma_prefix_lines(g.vocab_iri);
    let none = Seq::<char>::empty();
    let l1 = prefix_line("skos"@, SKOS@);
    let l2 = prefix_line("rdfs"@, RDFS@);
    let l3 = prefix_line("dcterms"@, DCTERMS@);
    let l4 = prefix_line("xsd"@, XSD@);
    let l5 = prefix_line("xl"@, g.vocab_iri);
    let all = prefixes_text(g.vocab_iri);
    let end = "\n"@;
    lemma_around(none, none, l1, l2, l3, l4, l5, end);
    assert(all =~= none + l1 + (l2 + l3 + l4 + l5 + end));
    assert(all =~= l1 + l2 + (l3 + l4 + l5 + end));
    assert(all =~= l1 + l2 + l3 + (l4 + l5 + end));
    assert(all =~= l1 + l2 + l3 + l4 + (l5 + end));
    lemma_in_turtle(g, none, l1, l2 + l3 + l4 + l5 + end);
    lemma_in_turtle(g, l1, l2, l3 + l4 + l5 + end);
    lemma_in_turtle(g, l1 + l2, l3, l4 + l5 + end);
    lemma_in_turtle(g, l1 + l2 + l3, l4, l5 + end);
    lemma_in_turtle(g, l1 + l2 + l3 + l4, l5, end);
}

proof fn lemma_in_rings(g: GraphModel, n: nat, k: int)
    requires
        0 <= k < n <= g.rings.len(),
    ensures
        has(
            rings_text(g, n),
            subject_text(
                "<"@ + g.base_iri + "ring/"@ + decimal(g.rings[k].level as nat) + ">"@,
                ring_props(g, g.rings[k]),
            ),
        ),
    decreases n,
{
    let none = Seq::<char>::empty();
    let front = rings_text(g, (n - 1) as nat);
    let r = g.rings[n - 1];
    let last = subject_text(
        iri_ref(g.base_iri + "ring/"@ + decimal(r.level as nat)),
        ring_props(g, r),
    );
    assert(front + last =~= front + last + none);
    assert(front + last =~= none + front + last);
    if k == n - 1 {
        lemma_has_part(front, last, none);
        let d = decimal(r.level as nat);
        assert("<"@ + (g.base_iri + "ring/"@ + d) + ">"@ =~= "<"@ + g.base_iri + "ring/"@ + d + ">"@);
    } else {
        lemma_in_rings(g, (n - 1) as nat, k);
        let p = subject_text(
            "<"@ + g.base_iri + "ring/"@ + decimal(g.rings[k].level as nat) + ">"@,
            ring_props(g, g.rings[k]),
        );
        lemma_has_more(none, front, last, p);
    }
}

proof fn lemma_in_concepts(g: GraphModel, n: nat, k: int)
    requires
        0 <= k < n <= g.nodes.len(),
    ensures
        has(
            concepts_text(g, n),
            subject_text(
                "<"@ + g.base_iri + g.nodes[k].term + ">"@,
                concept_props(g, g.nodes[k]),
            ),
        ),
    decreases n,
{
    let none = Seq::<char>::empty();
    let front = concepts_text(g, (n - 1) as nat);
    let c = g.nodes[n - 1];
    let last = subject_text(iri_ref(g.base_iri + c.term), concept_props(g, c));
    assert(front + last =~= front + last + none);
    assert(front + last =~= none + front + last);
    if k == n - 1 {
        lemma_has_part(front, last, none);
        assert("<"@ + (g.base_iri + c.term) + ">"@ =~= "<"@ + g.base_iri + c.term + ">"@);
    } else {
        lemma_in_concepts(g, (n - 1) as nat, k);
        let p = subject_text(
            "<"@ + g.base_iri + g.nodes[k].term + ">"@,
            concept_props(g, g.nodes[k]),
        );
        lemma_has_more(none, front, last, p);
    }
}

/// The Turtle document holds what is said of the scheme under the base IRI,
/// what is said of each ring under `ring/` and its level, and what is said of
/// each concept under its term.
pub proof fn the_turtle_holds_every_subject(g: GraphModel)
    ensures
        has(turtle(g), subject_text("<"@ + g.base_iri + ">"@, scheme_props(g))),
        forall|k: int|
            0 <= k < g.rings.len() ==> has(
                turtle(g),
                subject_text(
                    "<"@ + g.base_iri + "ring/"@ + decimal((#[trigger] g.rings[k]).level as nat)
                        + ">"@,
                    ring_props(g, g.rings[k]),
                ),
            ),
        forall|k: int|
            0 <= k < g.nodes.len() ==> has(
                turtle(g),
                subject_text(
                    "<"@ + g.base_iri + (#[trigger] g.nodes[k]).term + ">"@,
                    concept_props(g, g.nodes[k]),
                ),
            ),
{
    let first = prefixes_text(g.vocab_iri);
    let scheme = subject_text(iri_ref(g.base_iri), scheme_props(g));
    let rings = rings_text(g, g.rings.len());
    let nodes = concepts_text(g, g.nodes.len());
    let none = Seq::<char>::empty();
    assert(turtle(g) =~= first + scheme + (rings + nodes));
    assert(turtle(g) =~= (first + scheme) + rings + nodes);
    assert(turtle(g) =~= (first + scheme + rings) + nodes + none);
    lemma_has_part(first, scheme, rings + nodes);
    assert forall|k: int| 0 <= k < g.rings.len() implies has(
        turtle(g),
        subject_text(
            "<"@ + g.base_iri + "ring/"@ + decimal((#[trigger] g.rings[k]).level as nat) + ">"@,
            ring_props(g, g.rings[k]),
        ),
    ) by {
        lemma_in_rings(g, g.rings.len(), k);
        lemma_has_more(
            first + scheme,
            rings,
            nodes,
            subject_text(
                "<"@ + g.base_iri + "ring/"@ + decimal(g.rings[k].level as nat) + ">"@,
                ring_props(g, g.rings[k]),
            ),
        );
    }
    assert forall|k: int| 0 <= k < g.nodes.len() implies has(
        turtle(g),
        subject_text(
            "<"@ + g.base_iri + (#[trigger] g.nodes[k]).term + ">"@,
            concept_props(g, g.nodes[k]),
        ),
    ) by {
        lemma_in_concepts(g, g.nodes.len(), k);
        lemma_has_more(
            first + scheme + rings,
            nodes,
            none,
            subject_text(
                "<"@ + g.base_iri + g.nodes[k].term + ">"@,
                concept_props(g, g.nodes[k]),
            ),
        );
    }
}

proof fn lemma_entry_in_text(props: Seq<(Seq<char>, Seq<Seq<char>>)>, n: nat, i: int)
    requires
        0 <= i < n <= props.len(),
    ensures
        has(props_text(props, n), " "@ + props[i].0 + " "@ + join(props[i].1, ", "@)),
    decreases n,
{
    let none = Seq::<char>::empty();
    let front = props_text(props, (n - 1) as nat);
    let entry = props[n - 1].0 + " "@ + join(props[n - 1].1, ", "@);
    let p = " "@ + props[i].0 + " "@ + join(props[i].1, ", "@);
    if i == n - 1 {
        assert(p =~= " "@ + entry);
        if n == 1 {
            assert(props_text(props, n) =~= front + p + none);
            lemma_has_part(front, p, none);
        } else {
            reveal_strlit(" ;\n    ");
            reveal_strlit(" ;\n   ");
            reveal_strlit(" ");
            assert(" ;\n    "@ =~= " ;\n   "@ + " "@);
            assert(props_text(props, n) =~= (front + " ;\n   "@) + p + none);
            lemma_has_part(front + " ;\n   "@, p, none);
        }
    } else {
        lemma_entry_in_text(props, (n - 1) as nat, i);
        let sep = if n == 1 {
            " "@
        } else {
            " ;\n    "@
        };
        assert(props_text(props, n) =~= none + front + (sep + entry));
        lemma_has_more(none, front, sep + entry, p);
    }
}

/// What is said of a subject begins with the subject and ends with a full
/// stop, and each predicate stands in it with its objects, parted by commas,
/// behind it.
pub proof fn a_subject_is_written_with_its_statements(
    subject: Seq<char>,
    props: Seq<(Seq<char>, Seq<Seq<char>>)>,
)
    ensures
        starts(subject_text(subject, props), subject),
        ends(subject_text(subject, props), " .\n\n"@),
        forall|i: int|
            0 <= i < props.len() ==> has(
                subject_text(subject, props),
                " "@ + (#[trigger] props[i]).0 + " "@ + join(props[i].1, ", "@),
            ),
{
    let text = subject_text(subject, props);
    let body = props_text(props, props.len());
    assert(text.take(subject.len() as int) =~= subject);
    assert(text.skip(text.len() - " .\n\n"@.len()) =~= " .\n\n"@);
    assert forall|i: int| 0 <= i < props.len() implies has(
        text,
        " "@ + (#[trigger] props[i]).0 + " "@ + join(props[i].1, ", "@),
    ) by {
        lemma_entry_in_text(props, props.len(), i);
        lemma_has_more(
            subject,
            body,
            " .\n\n"@,
            " "@ + props[i].0 + " "@ + join(props[i].1, ", "@),
        );
    }
}

/// A term heads the scheme exactly when a ring of level 0 has it.
pub proof fn ring_zero_heads_the_scheme(rings: Seq<RingModel>, term: Seq<char>)
    ensures
        top_terms(rings).contains(term) <==> exists|i: int|
            0 <= i < rings.len() && (#[trigger] rings[i]).level == 0 && rings[i].terms.contains(
                term,
            ),
    decreases rings.len(),
{
    if rings.len() > 0 {
        let front = rings.drop_last();
        let last = rings.last();
        ring_zero_heads_the_scheme(front, term);
        if exists|i: int|
            0 <= i < front.len() && (#[trigger] front[i]).level == 0 && front[i].terms.contains(
                term,
            ) {
            let i = choose|i: int|
                0 <= i < front.len() && (#[trigger] front[i]).level == 0 && front[i].terms.contains(
                    term,
                );
            assert(rings[i] == front[i]);
        }
        if exists|i: int|
            0 <= i < rings.len() && (#[trigger] rings[i]).level == 0 && rings[i].terms.contains(
                term,
            ) {
            let i = choose|i: int|
                0 <= i < rings.len() && (#[trigger] rings[i]).level == 0 && rings[i].terms.contains(
                    term,
                );
            if i < front.len() {
                assert(front[i] == rings[i]);
            }
        }
        if last.level == 0 {
            let a = top_terms(front);
            let b = last.terms;
            assert(rings[rings.len() - 1] == last);
            if a.contains(term) {
                let i = choose|i: int| 0 <= i < a.len() && a[i] == term;
                assert((a + b)[i] == term);
            }
            if b.contains(term) {
                let i = choose|i: int| 0 <= i < b.len() && b[i] == term;
                assert((a + b)[a.len() + i] == term);
            }
            if (a + b).contains(term) {
                let i = choose|i: int| 0 <= i < (a + b).len() && (a + b)[i] == term;
                if i < a.len() {
                    assert(a[i] == term);
                } else {
                    assert(b[i - a.len()] == term);
                }
            }
        }
    }
}

// ---------------------------------------------------------------------------
// Members in JSON-LD
// ---------------------------------------------------------------------------

/// One member of the name, with this value; none where there is no value.
pub open spec fn holds(
    members: Seq<(Seq<char>, JsonModel)>,
    name: Seq<char>,
    value: Option<JsonModel>,
) -> bool {
    match value {
        None => forall|i: int| 0 <= i < members.len() ==> (#[trigger] members[i]).0 != name,
        Some(v) => exists|i: int| #[trigger] holds_at(members, name, v, i),
    }
}

/// The member at a place, and no other, is of the name.
pub open spec fn holds_at(
    members: Seq<(Seq<char>, JsonModel)>,
    name: Seq<char>,
    value: JsonModel,
    i: int,
) -> bool {
    &&& 0 <= i < members.len()
    &&& members[i] == (name, value)
    &&& forall|j: int| 0 <= j < members.len() && j != i ==> (#[trigger] members[j]).0 != name
}

/// Members with one more, where it has a value.
pub open spec fn with_value(
    members: Seq<(Seq<char>, JsonModel)>,
    name: Seq<char>,
    value: Option<JsonModel>,
) -> Seq<(Seq<char>, JsonModel)> {
    match value {
        None => members,
        Some(v) => members.push((name, v)),
    }
}

proof fn lemma_holds_more(
    members: Seq<(Seq<char>, JsonModel)>,
    name: Seq<char>,
    value: Option<JsonModel>,
)
    requires
        holds(members, name, None),
    ensures
        holds(with_value(members, name, value), name, value),
        forall|q: Seq<char>, v: Option<JsonModel>|
            q != name && holds(members, q, v) ==> #[trigger] holds(
                with_value(members, name, value),
                q,
                v,
            ),
{
    let more = with_value(members, name, value);
    if let Some(x) = value {
        assert(holds_at(more, name, x, members.len() as int));
        assert forall|q: Seq<char>, v: Option<JsonModel>|
            q != name && holds(members, q, v) implies #[trigger] holds(more, q, v) by {
            if let Some(y) = v {
                let i = choose|i: int| #[trigger] holds_at(members, q, y, i);
                assert(more[i] == members[i]);
                assert forall|j: int| 0 <= j < more.len() && j != i implies (
                #[trigger] more[j]).0 != q by {
                    if j < members.len() {
                        assert(more[j] == members[j]);
                    }
                }
                assert(holds_at(more, q, y, i));
            } else {
                assert forall|j: int| 0 <= j < more.len() implies (#[trigger] more[j]).0 != q by {
                    if j < members.len() {
                        assert(more[j] == members[j]);
                    }
                }
            }
        }
    }
}

/// A text marked as English.
pub open spec fn english_json(text: Seq<char>) -> JsonModel {
    JsonModel::Object(
        seq![("@value"@, JsonModel::Text(text)), ("@language"@, JsonModel::Text("en"@))],
    )
}

/// An optional text marked as English.
pub open spec fn opt_english_json(text: Option<Seq<char>>) -> Option<JsonModel> {
    match text {
        Some(t) => Some(english_json(t)),
        None => None,
    }
}

/// A reference to an IRI.
pub open spec fn reference_json(iri: Seq<char>) -> JsonModel {
    JsonModel::Object(seq![("@id"@, JsonModel::Text(iri))])
}

/// References to terms, each behind the base IRI; nothing where there is no
/// term.
pub open spec fn references_json(base: Seq<char>, terms: Seq<Seq<char>>) -> Option<JsonModel> {
    if terms.len() == 0 {
        None
    } else {
        Some(
            JsonModel::List(
                Seq::new(terms.len(), |i: int| reference_json(base + terms[i])),
            ),
        )
    }
}

/// An optional ring level.
pub open spec fn level_json(level: Option<u32>) -> Option<JsonModel> {
    match level {
        Some(n) => Some(JsonModel::Number(n as nat)),
        None => None,
    }
}

proof fn lemma_lang_more(
    members: Seq<(Seq<char>, JsonModel)>,
    name: Seq<char>,
    text: Option<Seq<char>>,
)
    ensures
        with_lang(members, name, text) == with_value(members, name, opt_english_json(text)),
{
    if let Some(t) = text {
        assert(lang_json(t) == english_json(t));
    }
}

proof fn lemma_terms_more(
    members: Seq<(Seq<char>, JsonModel)>,
    name: Seq<char>,
    base: Seq<char>,
    terms: Seq<Seq<char>>,
)
    ensures
        with_ids(members, name, term_ids(base, terms)) == with_value(
            members,
            name,
            references_json(base, terms),
        ),
{
    let ids = term_ids(base, terms);
    if terms.len() > 0 {
        assert(ids->List_0 =~= references_json(base, terms)->Some_0->List_0);
    }
}

proof fn lemma_iris_more(
    members: Seq<(Seq<char>, JsonModel)>,
    name: Seq<char>,
    iris: Seq<Seq<char>>,
)
    ensures
        with_ids(members, name, iri_ids(iris)) == with_value(
            members,
            name,
            references_json(Seq::empty(), iris),
        ),
{
    let ids = iri_ids(iris);
    if iris.len() > 0 {
        assert forall|i: int| 0 <= i < iris.len() implies #[trigger] ids->List_0[i]
            == references_json(Seq::empty(), iris)->Some_0->List_0[i] by {
            assert(Seq::<char>::empty() + iris[i] =~= iris[i]);
        }
        assert(ids->List_0 =~= references_json(Seq::empty(), iris)->Some_0->List_0);
    }
}

proof fn lemma_more_names()
    ensures
        "@id"@.len() == 3,
        "@type"@.len() == 5,
{
    reveal_strlit("@id");
    reveal_strlit("@type");
}

/// What the JSON-LD of a concept holds: its IRI, its type, its scheme and its
/// label; its definition, its ring and each of its four sections, where it
/// has them, each once and under its own name; and its links by their
/// relation.
pub proof fn a_concept_is_said_in_jsonld(g: GraphModel, n: ConceptModel)
    ensures
        concept_json(g, n) is Object,
        ({
            let m = concept_json(g, n)->Object_0;
            &&& holds(m, "@id"@, Some(JsonModel::Text(g.base_iri + n.term)))
            &&& holds(m, "@type"@, Some(JsonModel::Text("skos:Concept"@)))
            &&& holds(m, "skos:inScheme"@, Some(reference_json(g.base_iri)))
            &&& holds(m, "skos:prefLabel"@, Some(english_json(n.label)))
            &&& holds(m, "skos:definition"@, opt_english_json(n.definition))
            &&& holds(m, "xl:ring"@, level_json(n.ring))
            &&& holds(m, "xl:ontology"@, opt_english_json(n.ontology))
            &&& holds(m, "xl:axiology"@, opt_english_json(n.axiology))
            &&& holds(m, "xl:ethics"@, opt_english_json(n.ethics))
            &&& holds(m, "xl:epistemology"@, opt_english_json(n.epistemology))
            &&& holds(m, "skos:broader"@, references_json(g.base_iri, n.broader))
            &&& holds(m, "skos:narrower"@, references_json(g.base_iri, n.narrower))
            &&& holds(m, "skos:related"@, references_json(g.base_iri, n.related))
            &&& holds(m, "rdfs:seeAlso"@, references_json(Seq::empty(), n.see_also))
        }),
{
    lemma_concept_predicates();
    lemma_more_names();
    let e0 = Seq::<(Seq<char>, JsonModel)>::empty();
    let v0 = Some(JsonModel::Text(g.base_iri + n.term));
    let e1 = with_value(e0, "@id"@, v0);
    let v1 = Some(JsonModel::Text("skos:Concept"@));
    let e2 = with_value(e1, "@type"@, v1);
    let v2 = Some(reference_json(g.base_iri));
    let e3 = with_value(e2, "skos:inScheme"@, v2);
    let v3 = Some(english_json(n.label));
    let m0 = with_value(e3, "skos:prefLabel"@, v3);
    let m1 = with_value(m0, "skos:definition"@, opt_english_json(n.definition));
    let m2 = with_value(m1, "xl:ring"@, level_json(n.ring));
    let m3 = with_value(m2, "xl:ontology"@, opt_english_json(n.ontology));
    let m4 = with_value(m3, "xl:axiology"@, opt_english_json(n.axiology));
    let m5 = with_value(m4, "xl:ethics"@, opt_english_json(n.ethics));
    let m6 = with_value(m5, "xl:epistemology"@, opt_english_json(n.epistemology));
    let m7 = with_value(m6, "skos:broader"@, references_json(g.base_iri, n.broader));
    let m8 = with_value(m7, "skos:narrower"@, references_json(g.base_iri, n.narrower));
    let m9 = with_value(m8, "skos:related"@, references_json(g.base_iri, n.related));
    let m10 = with_value(m9, "rdfs:seeAlso"@, references_json(Seq::empty(), n.see_also));
    assert(m0 =~= seq![
        ("@id"@, JsonModel::Text(g.base_iri + n.term)),
        ("@type"@, JsonModel::Text("skos:Concept"@)),
        ("skos:inScheme"@, id_json(g.base_iri)),
        ("skos:prefLabel"@, lang_json(n.label)),
    ]);
    lemma_lang_more(m0, "skos:definition"@, n.definition);
    lemma_lang_more(m2, "xl:ontology"@, n.ontology);
    lemma_lang_more(m3, "xl:axiology"@, n.axiology);
    lemma_lang_more(m4, "xl:ethics"@, n.ethics);
    lemma_lang_more(m5, "xl:epistemology"@, n.epistemology);
    lemma_terms_more(m6, "skos:broader"@, g.base_iri, n.broader);
    lemma_terms_more(m7, "skos:narrower"@, g.base_iri, n.narrower);
    lemma_terms_more(m8, "skos:related"@, g.base_iri, n.related);
    lemma_iris_more(m9, "rdfs:seeAlso"@, n.see_also);
    assert(with_level(m1, "xl:ring"@, n.ring) == m2);
    assert(concept_json(g, n) == JsonModel::Object(m10));
    lemma_holds_more(e0, "@id"@, v0);
    lemma_holds_more(e1, "@type"@, v1);
    lemma_holds_more(e2, "skos:inScheme"@, v2);
    lemma_holds_more(e3, "skos:prefLabel"@, v3);
    lemma_holds_more(m0, "skos:definition"@, opt_english_json(n.definition));
    lemma_holds_more(m1, "xl:ring"@, level_json(n.ring));
    lemma_holds_more(m2, "xl:ontology"@, opt_english_json(n.ontology));
    lemma_holds_more(m3, "xl:axiology"@, opt_english_json(n.axiology));
    lemma_holds_more(m4, "xl:ethics"@, opt_english_json(n.ethics));
    lemma_holds_more(m5, "xl:epistemology"@, opt_english_json(n.epistemology));
    lemma_holds_more(m6, "skos:broader"@, references_json(g.base_iri, n.broader));
    lemma_holds_more(m7, "skos:narrower"@, references_json(g.base_iri, n.narrower));
    lemma_holds_more(m8, "skos:related"@, references_json(g.base_iri, n.related));
    lemma_holds_more(m9, "rdfs:seeAlso"@, references_json(Seq::empty(), n.see_also));
}

/// What the JSON-LD of the scheme holds: its IRI, its type, its name and its
/// description, and the terms of ring 0.
pub proof fn the_scheme_is_said_in_jsonld(g: GraphModel)
    ensures
        scheme_json(g) is Object,
        ({
            let m = scheme_json(g)->Object_0;
            &&& holds(m, "@id"@, Some(JsonModel::Text(g.base_iri)))
            &&& holds(m, "@type"@, Some(JsonModel::Text("skos:ConceptScheme"@)))
            &&& holds(m, "rdfs:label"@, Some(english_json(g.scheme_name)))
            &&& holds(m, "dcterms:description"@, Some(english_json(g.scheme_description)))
            &&& holds(m, "skos:hasTopConcept"@, references_json(g.base_iri, top_terms(g.rings)))
        }),
{
    lemma_other_predicates();
    lemma_more_names();
    let e0 = Seq::<(Seq<char>, JsonModel)>::empty();
    let v0 = Some(JsonModel::Text(g.base_iri));
    let e1 = with_value(e0, "@id"@, v0);
    let v1 = Some(JsonModel::Text("skos:ConceptScheme"@));
    let e2 = with_value(e1, "@type"@, v1);
    let v2 = Some(english_json(g.scheme_name));
    let e3 = with_value(e2, "rdfs:label"@, v2);
    let v3 = Some(english_json(g.scheme_description));
    let m0 = with_value(e3, "dcterms:description"@, v3);
    let v4 = references_json(g.base_iri, top_terms(g.rings));
    assert(m0 =~= seq![
        ("@id"@, JsonModel::Text(g.base_iri)),
        ("@type"@, JsonModel::Text("skos:ConceptScheme"@)),
        ("rdfs:label"@, lang_json(g.scheme_name)),
        ("dcterms:description"@, lang_json(g.scheme_description)),
    ]);
    lemma_terms_more(m0, "skos:hasTopConcept"@, g.base_iri, top_terms(g.rings));
    lemma_holds_more(e0, "@id"@, v0);
    lemma_holds_more(e1, "@type"@, v1);
    lemma_holds_more(e2, "rdfs:label"@, v2);
    lemma_holds_more(e3, "dcterms:description"@, v3);
    lemma_holds_more(m0, "skos:hasTopConcept"@, v4);
}

/// What the JSON-LD of a ring holds: its IRI, its type, its scheme, its name,
/// its description and its level, and its terms as members.
pub proof fn a_ring_is_said_in_jsonld(g: GraphModel, r: RingModel)
    ensures
        ring_json(g, r) is Object,
        ({
            let m = ring_json(g, r)->Object_0;
            &&& holds(
                m,
                "@id"@,
                Some(JsonModel::Text(g.base_iri + "ring/"@ + decimal(r.level as nat))),
            )
            &&& holds(m, "@type"@, Some(JsonModel::Text("skos:Collection"@)))
            &&& holds(m, "skos:inScheme"@, Some(reference_json(g.base_iri)))
            &&& holds(m, "rdfs:label"@, Some(english_json(r.name)))
            &&& holds(m, "dcterms:description"@, Some(english_json(r.description)))
            &&& holds(m, "xl:ring"@, Some(JsonModel::Number(r.level as nat)))
            &&& holds(m, "skos:member"@, references_json(g.base_iri, r.terms))
        }),
{
    lemma_other_predicates();
    lemma_more_names();
    let e0 = Seq::<(Seq<char>, JsonModel)>::empty();
    let v0 = Some(JsonModel::Text(g.base_iri + "ring/"@ + decimal(r.level as nat)));
    let e1 = with_value(e0, "@id"@, v0);
    let v1 = Some(JsonModel::Text("skos:Collection"@));
    let e2 = with_value(e1, "@type"@, v1);
    let v2 = Some(reference_json(g.base_iri));
    let e3 = with_value(e2, "skos:inScheme"@, v2);
    let v3 = Some(english_json(r.name));
    let e4 = with_value(e3, "rdfs:label"@, v3);
    let v4 = Some(english_json(r.description));
    let e5 = with_value(e4, "dcterms:description"@, v4);
    let v5 = Some(JsonModel::Number(r.level as nat));
    let m0 = with_value(e5, "xl:ring"@, v5);
    let v6 = references_json(g.base_iri, r.terms);
    assert(m0 =~= seq![
        ("@id"@, JsonModel::Text(g.base_iri + "ring/"@ + decimal(r.level as nat))),
        ("@type"@, JsonModel::Text("skos:Collection"@)),
        ("skos:inScheme"@, id_json(g.base_iri)),
        ("rdfs:label"@, lang_json(r.name)),
        ("dcterms:description"@, lang_json(r.description)),
        ("xl:ring"@, JsonModel::Number(r.level as nat)),
    ]);
    lemma_terms_more(m0, "skos:member"@, g.base_iri, r.terms);
    lemma_holds_more(e0, "@id"@, v0);
    lemma_holds_more(e1, "@type"@, v1);
    lemma_holds_more(e2, "skos:inScheme"@, v2);
    lemma_holds_more(e3, "rdfs:label"@, v3);
    lemma_holds_more(e4, "dcterms:description"@, v4);
    lemma_holds_more(e5, "xl:ring"@, v5);
    lemma_holds_more(m0, "skos:member"@, v6);
}

/// The JSON-LD document has a context that gives each prefix its namespace,
/// and a graph that holds the scheme, then every ring, then every concept.
pub proof fn the_jsonld_document_is_whole(g: GraphModel)
    ensures
        document_json(g) is Object,
        document_json(g)->Object_0.len() == 2,
        document_json(g)->Object_0[0] == ("@context"@, context_json(g)),
        document_json(g)->Object_0[1] == ("@graph"@, JsonModel::List(graph_json(g))),
        ({
            let m = context_json(g)->Object_0;
            &&& context_json(g) is Object
            &&& m.len() == 5
            &&& m[0] == (
                "skos"@,
                JsonModel::Text("http://www.w3.org/2004/02/skos/core#"@),
            )
            &&& m[1] == (
                "rdfs"@,
                JsonModel::Text("http://www.w3.org/2000/01/rdf-schema#"@),
            )
            &&& m[2] == ("dcterms"@, JsonModel::Text("http://purl.org/dc/terms/"@))
            &&& m[3] == ("xsd"@, JsonModel::Text("http://www.w3.org/2001/XMLSchema#"@))
            &&& m[4] == ("xl"@, JsonModel::Text(g.vocab_iri))
        }),
        graph_json(g).len() == 1 + g.rings.len() + g.nodes.len(),
        graph_json(g)[0] == scheme_json(g),
        forall|k: int|
            0 <= k < g.rings.len() ==> graph_json(g)[1 + k] == ring_json(
                g,
                #[trigger] g.rings[k],
            ),
        forall|k: int|
            0 <= k < g.nodes.len() ==> graph_json(g)[1 + g.rings.len() + k] == concept_json(
                g,
                #[trigger] g.nodes[k],
            ),
{
}

}
