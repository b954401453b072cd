//! JSON-LD document of an export.

use vstd::prelude::*;
use vstd::string::*;

use crate::commands::export::turtle::{top_concepts, top_terms};
use crate::commands::export::{
    ring_iri_of, term_iri_of, ConceptModel, ExportGraph, ExportNode, ExportRing, GraphModel,
    DCTERMS, LANG, RDFS, SKOS, XSD,
};
use crate::config::RingModel;
use crate::json::{Json, JsonModel};
use crate::text::{opt_text, texts};

verus! {

/// The members of an object.
pub struct Members {
    pub list: Vec<(String, Json)>,
}

impl View for Members {
    type V = Seq<(Seq<char>, JsonModel)>;

    open spec fn view(&self) -> Seq<(Seq<char>, JsonModel)> {
        Seq::new(self.list@.len(), |i: int| (self.list@[i].0@, self.list@[i].1@))
    }
}

impl Members {
    fn new() -> (r: Members)
        ensures
            r@ == Seq::<(Seq<char>, JsonModel)>::empty(),
    {
        let r = Members { list: Vec::new() };
        assert(r@ =~= Seq::<(Seq<char>, JsonModel)>::empty());
        r
    }

    fn put(&mut self, name: &str, value: Json)
        ensures
            final(self)@ == old(self)@.push((name@, value@)),
    {
        let ghost before = self@;
        self.list.push((name.to_string(), value));
        assert(self@ =~= before.push((name@, value@)));
    }

    fn object(self) -> (r: Json)
        ensures
            r@ == JsonModel::Object(self@),
    {
        let ghost members = self@;
        let r = Json::Object(self.list);
        assert(r@->Object_0 =~= members);
        r
    }
}

/// A text.
pub open spec fn text_json(s: Seq<char>) -> JsonModel {
    JsonModel::Text(s)
}

/// A reference to an IRI.
pub open spec fn id_json(iri: Seq<char>) -> JsonModel {
    JsonModel::Object(seq![("@id"@, text_json(iri))])
}

/// A text in the language of the export.
pub open spec fn lang_json(s: Seq<char>) -> JsonModel {
    JsonModel::Object(seq![("@value"@, text_json(s)), ("@language"@, text_json(LANG@))])
}

/// References to terms.
pub open spec fn term_ids(base: Seq<char>, terms: Seq<Seq<char>>) -> JsonModel {
    JsonModel::List(Seq::new(terms.len(), |i: int| id_json(term_iri_of(base, terms[i]))))
}

/// References to IRIs.
pub open spec fn iri_ids(iris: Seq<Seq<char>>) -> JsonModel {
    JsonModel::List(Seq::new(iris.len(), |i: int| id_json(iris[i])))
}

fn text_value(s: &str) -> (r: Json)
    ensures
        r@ == text_json(s@),
{
    Json::Text(s.to_string())
}

fn id_value(iri: &str) -> (r: Json)
    ensures
        r@ == id_json(iri@),
{
    let mut m = Members::new();
    m.put("@id", text_value(iri));
    assert(m@ =~= seq![("@id"@, text_json(iri@))]);
    m.object()
}

fn lang(s: &str) -> (r: Json)
    ensures
        r@ == lang_json(s@),
{
    let mut m = Members::new();
    m.put("@value", text_value(s));
    m.put("@language", text_value(LANG));
    assert(m@ =~= seq![("@value"@, text_json(s@)), ("@language"@, text_json(LANG@))]);
    m.object()
}

/// What a list of values is.
pub open spec fn values_of(list: Seq<Json>) -> Seq<JsonModel> {
    Seq::new(list.len(), |i: int| list[i]@)
}

fn list_value(list: Vec<Json>) -> (r: Json)
    ensures
        r@ == JsonModel::List(values_of(list@)),
{
    let ghost values = values_of(list@);
    let r = Json::List(list);
    assert(r@->List_0 =~= values);
    r
}

fn ids_of_terms(g: &ExportGraph, terms: &Vec<String>) -> (r: Json)
    ensures
        r@ == term_ids(g@.base_iri, texts(terms@)),
{
    let ghost all = term_ids(g@.base_iri, texts(terms@))->List_0;
    let mut list: Vec<Json> = Vec::new();
    for i in 0..terms.len()
        invariant
            all == term_ids(g@.base_iri, texts(terms@))->List_0,
            list@.len() == i,
            forall|k: int| 0 <= k < i ==> (#[trigger] list@[k])@ == all[k],
    {
        list.push(id_value(g.term_iri(terms[i].as_str()).as_str()));
    }
    assert(values_of(list@) =~= all);
    list_value(list)
}

fn ids_of_iris(iris: &Vec<String>) -> (r: Json)
    ensures
        r@ == iri_ids(texts(iris@)),
{
    let ghost all = iri_ids(texts(iris@))->List_0;
    let mut list: Vec<Json> = Vec::new();
    for i in 0..iris.len()
        invariant
            all == iri_ids(texts(iris@))->List_0,
            list@.len() == i,
            forall|k: int| 0 <= k < i ==> (#[trigger] list@[k])@ == all[k],
    {
        list.push(id_value(iris[i].as_str()));
    }
    assert(values_of(list@) =~= all);
    list_value(list)
}

// ---------------------------------------------------------------------------
// The document
// ---------------------------------------------------------------------------

/// One more member for a list of references, unless it is empty.
pub open spec fn with_ids(
    members: Seq<(Seq<char>, JsonModel)>,
    name: Seq<char>,
    ids: JsonModel,
) -> Seq<(Seq<char>, JsonModel)> {
    if ids->List_0.len() == 0 {
        members
    } else {
        members.push((name, ids))
    }
}

/// One more member for an optional text.
pub open spec fn with_lang(
    members: Seq<(Seq<char>, JsonModel)>,
    name: Seq<char>,
    value: Option<Seq<char>>,
) -> Seq<(Seq<char>, JsonModel)> {
    match value {
        Some(text) => members.push((name, lang_json(text))),
        None => members,
    }
}

/// One more member for an optional level.
pub open spec fn with_level(
    members: Seq<(Seq<char>, JsonModel)>,
    name: Seq<char>,
    level: Option<u32>,
) -> Seq<(Seq<char>, JsonModel)> {
    match level {
        Some(n) => members.push((name, JsonModel::Number(n as nat))),
        None => members,
    }
}

/// The context: the prefixes.
pub open spec fn context_json(g: GraphModel) -> JsonModel {
    JsonModel::Object(
        seq![
            ("skos"@, text_json(SKOS@)),
            ("rdfs"@, text_json(RDFS@)),
            ("dcterms"@, text_json(DCTERMS@)),
            ("xsd"@, text_json(XSD@)),
            ("xl"@, text_json(g.vocab_iri)),
        ],
    )
}

/// The concept scheme.
pub open spec fn scheme_json(g: GraphModel) -> JsonModel {
    JsonModel::Object(
        with_ids(
            seq![
                ("@id"@, text_json(g.base_iri)),
                ("@type"@, text_json("skos:ConceptScheme"@)),
                ("rdfs:label"@, lang_json(g.scheme_name)),
                ("dcterms:description"@, lang_json(g.scheme_description)),
            ],
            "skos:hasTopConcept"@,
            term_ids(g.base_iri, top_terms(g.rings)),
        ),
    )
}

/// A ring.
pub open spec fn ring_json(g: GraphModel, r: RingModel) -> JsonModel {
    JsonModel::Object(
        with_ids(
            seq![
                ("@id"@, text_json(ring_iri_of(g.base_iri, r.level))),
                ("@type"@, text_json("skos:Collection"@)),
                ("skos:inScheme"@, id_json(g.base_iri)),
                ("rdfs:label"@, lang_json(r.name)),
                ("dcterms:description"@, lang_json(r.description)),
                ("xl:ring"@, JsonModel::Number(r.level as nat)),
            ],
            "skos:member"@,
            term_ids(g.base_iri, r.terms),
        ),
    )
}

/// A concept.
pub open spec fn concept_json(g: GraphModel, n: ConceptModel) -> JsonModel {
    let m0 = seq![
        ("@id"@, text_json(term_iri_of(g.base_iri, n.term))),
        ("@type"@, text_json("skos:Concept"@)),
        ("skos:inScheme"@, id_json(g.base_iri)),
        ("skos:prefLabel"@, lang_json(n.label)),
    ];
    let m1 = with_lang(m0, "skos:definition"@, n.definition);
    let m2 = with_level(m1, "xl:ring"@, n.ring);
    let m3 = with_lang(m2, "xl:ontology"@, n.ontology);
    let m4 = with_lang(m3, "xl:axiology"@, n.axiology);
    let m5 = with_lang(m4, "xl:ethics"@, n.ethics);
    let m6 = with_lang(m5, "xl:epistemology"@, n.epistemology);
    let m7 = with_ids(m6, "skos:broader"@, term_ids(g.base_iri, n.broader));
    let m8 = with_ids(m7, "skos:narrower"@, term_ids(g.base_iri, n.narrower));
    let m9 = with_ids(m8, "skos:related"@, term_ids(g.base_iri, n.related));
    JsonModel::Object(with_ids(m9, "rdfs:seeAlso"@, iri_ids(n.see_also)))
}

/// The graph: the scheme, the rings and the concepts.
pub open spec fn graph_json(g: GraphModel) -> Seq<JsonModel> {
    seq![scheme_json(g)] + Seq::new(g.rings.len(), |i: int| ring_json(g, g.rings[i])) + Seq::new(
        g.nodes.len(),
        |i: int| concept_json(g, g.nodes[i]),
    )
}

/// The document.
pub open spec fn document_json(g: GraphModel) -> JsonModel {
    JsonModel::Object(
        seq![("@context"@, context_json(g)), ("@graph"@, JsonModel::List(graph_json(g)))],
    )
}

impl Members {
    fn put_ids(&mut self, name: &str, ids: Json, empty: bool)
        requires
            ids@ is List,
            empty == (ids@->List_0.len() == 0),
        ensures
            final(self)@ == with_ids(old(self)@, name@, ids@),
    {
        if !empty {
            self.put(name, ids);
        }
    }

    fn put_lang(&mut self, name: &str, value: &Option<String>)
        ensures
            final(self)@ == with_lang(old(self)@, name@, opt_text(*value)),
    {
        if let Some(text) = value {
            self.put(name, lang(text.as_str()));
        }
    }

    fn put_terms(&mut self, name: &str, g: &ExportGraph, terms: &Vec<String>)
        ensures
            final(self)@ == with_ids(old(self)@, name@, term_ids(g@.base_iri, texts(terms@))),
    {
        let ids = ids_of_terms(g, terms);
        self.put_ids(name, ids, terms.len() == 0);
    }
}

fn context_value(g: &ExportGraph) -> (r: Json)
    ensures
        r@ == context_json(g@),
{
    let mut m = Members::new();
    m.put("skos", text_value(SKOS));
    m.put("rdfs", text_value(RDFS));
    m.put("dcterms", text_value(DCTERMS));
    m.put("xsd", text_value(XSD));
    m.put("xl", text_value(g.vocab_iri.as_str()));
    assert(m@ =~= context_json(g@)->Object_0);
    m.object()
}

fn scheme_value(g: &ExportGraph) -> (r: Json)
    ensures
        r@ == scheme_json(g@),
{
    let mut m = Members::new();
    m.put("@id", text_value(g.base_iri.as_str()));
    m.put("@type", text_value("skos:ConceptScheme"));
    m.put("rdfs:label", lang(g.scheme_name.as_str()));
    m.put("dcterms:description", lang(g.scheme_description.as_str()));
    let ghost start = seq![
        ("@id"@, text_json(g@.base_iri)),
        ("@type"@, text_json("skos:ConceptScheme"@)),
        ("rdfs:label"@, lang_json(g@.scheme_name)),
        ("dcterms:description"@, lang_json(g@.scheme_description)),
    ];
    assert(m@ =~= start);
    let top = top_concepts(&g.rings);
    m.put_terms("skos:hasTopConcept", g, &top);
    m.object()
}

fn ring_value(g: &ExportGraph, r: &ExportRing) -> (j: Json)
    ensures
        j@ == ring_json(g@, r@),
{
    let mut m = Members::new();
    m.put("@id", text_value(g.ring_iri(r.level).as_str()));
    m.put("@type", text_value("skos:Collection"));
    m.put("skos:inScheme", id_value(g.base_iri.as_str()));
    m.put("rdfs:label", lang(r.name.as_str()));
    m.put("dcterms:description", lang(r.description.as_str()));
    m.put("xl:ring", Json::Number(r.level as u64));
    let ghost start = seq![
        ("@id"@, text_json(ring_iri_of(g@.base_iri, r@.level))),
        ("@type"@, text_json("skos:Collection"@)),
        ("skos:inScheme"@, id_json(g@.base_iri)),
        ("rdfs:label"@, lang_json(r@.name)),
        ("dcterms:description"@, lang_json(r@.description)),
        ("xl:ring"@, JsonModel::Number(r@.level as nat)),
    ];
    assert(m@ =~= start);
    m.put_terms("skos:member", g, &r.terms);
    m.object()
}

fn concept_value(g: &ExportGraph, n: &ExportNode) -> (j: Json)
    ensures
        j@ == concept_json(g@, n@),
{
    let mut m = Members::new();
    m.put("@id", text_value(g.term_iri(n.term.as_str()).as_str()));
    m.put("@type", text_value("skos:Concept"));
    m.put("skos:inScheme", id_value(g.base_iri.as_str()));
    m.put("skos:prefLabel", lang(n.label.as_str()));
    let ghost start = seq![
        ("@id"@, text_json(term_iri_of(g@.base_iri, n@.term))),
        ("@type"@, text_json("skos:Concept"@)),
        ("skos:inScheme"@, id_json(g@.base_iri)),
        ("skos:prefLabel"@, lang_json(n@.label)),
    ];
    assert(m@ =~= start);
    m.put_lang("skos:definition", &n.definition);
    if let Some(level) = n.ring {
        m.put("xl:ring", Json::Number(level as u64));
    }
    m.put_lang("xl:ontology", &n.ontology);
    m.put_lang("xl:axiology", &n.axiology);
    m.put_lang("xl:ethics", &n.ethics);
    m.put_lang("xl:epistemology", &n.epistemology);
    m.put_terms("skos:broader", g, &n.broader);
    m.put_terms("skos:narrower", g, &n.narrower);
    m.put_terms("skos:related", g, &n.related);
    let seen = ids_of_iris(&n.see_also);
    m.put_ids("rdfs:seeAlso", seen, n.see_also.len() == 0);
    m.object()
}

/// Serialize as a JSON-LD document with a prefix `@context` and a flat
/// `@graph`.
pub fn to_jsonld(g: &ExportGraph) -> (r: Json)
    ensures
        r@ == document_json(g@),
{
    let ghost all = graph_json(g@);
    let mut graph: Vec<Json> = Vec::new();
    graph.push(scheme_value(g));
    for i in 0..g.rings.len()
        invariant
            all == graph_json(g@),
            graph@.len() == i + 1,
            forall|k: int| 0 <= k < graph@.len() ==> (#[trigger] graph@[k])@ == all[k],
    {
        assert(g@.rings[i as int] == g.rings@[i as int]@);
        graph.push(ring_value(g, &g.rings[i]));
    }
    for i in 0..g.nodes.len()
        invariant
            all == graph_json(g@),
            graph@.len() == g.rings@.len() + i + 1,
            forall|k: int| 0 <= k < graph@.len() ==> (#[trigger] graph@[k])@ == all[k],
    {
        assert(g@.nodes[i as int] == g.nodes@[i as int]@);
        graph.push(concept_value(g, &g.nodes[i]));
    }
    assert(values_of(graph@) =~= all);
    let mut m = Members::new();
    m.put("@context", context_value(g));
    m.put("@graph", list_value(graph));
    assert(m@ =~= document_json(g@)->Object_0);
    m.object()
}

}
