//! Export of an ontology as RDF.
//!
//! The mapping is SKOS-first: every node becomes a `skos:Concept` in one
//! `skos:ConceptScheme`, rings become `skos:Collection`s, the lay definition
//! (first line of the Ontology section) becomes `skos:definition`, and the four
//! template sections are carried verbatim as `xl:` annotation literals.
//! `[term](./term.md "broader")` and `"narrower"` links become `skos:broader`
//! and `skos:narrower`, with the inverse on the target; other links become
//! `skos:related`.

pub mod jsonld;
pub mod laws;
pub mod statements;
pub mod turtle;

pub use jsonld::to_jsonld;
pub use turtle::{literal, to_turtle};

use vstd::prelude::*;
use vstd::string::*;

use crate::config::{
    by_level, ring_at, rings_of, Config, ConfigModel, Ring, RingModel,
};
use crate::json::{Json, JsonModel};
use crate::markdown::{
    definition, external_links, extract_definition, extract_external_links, extract_typed_links,
    files, links_of, node_of, plain, plain_text, terms_of, title, typed_links, FileModel,
    LinkModel, Node, NodeFile, Relation, TypedLink,
};
use crate::number::{decimal, decimal_text};
use crate::order::{sort_set, sorted_set};
use crate::text::{
    chars_of, contains_text, control_char, digit, ends, ends_with, is_control_char, is_digit,
    is_one_of, is_white_space, lemma_push_text, lemma_take_next, opt_str, opt_text, same, text_of,
    texts, trim, trimmed, white_space,
};

verus! {

/// Default base IRI for term identity when the manifest does not set one and
/// none is given.
pub const DEFAULT_BASE_IRI: &'static str = "https://existence-lang.github.io/ontology/";

/// Default namespace for the `xl:` metamodel vocabulary.
pub const DEFAULT_VOCAB_IRI: &'static str = "https://existence-lang.github.io/ontology/vocab#";

/// The namespace of SKOS.
pub const SKOS: &'static str = "http://www.w3.org/2004/02/skos/core#";

/// The namespace of RDF Schema.
pub const RDFS: &'static str = "http://www.w3.org/2000/01/rdf-schema#";

/// The namespace of the Dublin Core terms.
pub const DCTERMS: &'static str = "http://purl.org/dc/terms/";

/// The namespace of the XML Schema datatypes.
pub const XSD: &'static str = "http://www.w3.org/2001/XMLSchema#";

/// The language of every literal.
pub const LANG: &'static str = "en";

/// A ring of the export.
#[derive(Debug)]
pub struct ExportRing {
    pub level: u32,
    pub name: String,
    pub description: String,
    /// Terms declared in the ring that also exist as node files.
    pub terms: Vec<String>,
}

impl View for ExportRing {
    type V = RingModel;

    open spec fn view(&self) -> RingModel {
        RingModel {
            level: self.level,
            name: self.name@,
            description: self.description@,
            terms: texts(self.terms@),
        }
    }
}

/// What a list of rings is.
pub open spec fn export_rings_of(rings: Seq<ExportRing>) -> Seq<RingModel> {
    Seq::new(rings.len(), |i: int| rings[i]@)
}

/// A node of the export.
#[derive(Debug)]
pub struct ExportNode {
    pub term: String,
    pub label: String,
    /// Lay definition with markdown stripped.
    pub definition: Option<String>,
    pub ring: Option<u32>,
    pub ontology: Option<String>,
    pub axiology: Option<String>,
    pub ethics: Option<String>,
    pub epistemology: Option<String>,
    /// Exported nodes that this one links as broader, or that link it as
    /// narrower.
    pub broader: Vec<String>,
    /// Exported nodes that this one links as narrower, or that link it as
    /// broader.
    pub narrower: Vec<String>,
    /// Other outbound `[term](./term.md)` links to exported nodes.
    pub related: Vec<String>,
    /// External `http(s)` references.
    pub see_also: Vec<String>,
}

/// What a node of the export is.
pub struct ConceptModel {
    pub term: Seq<char>,
    pub label: Seq<char>,
    pub definition: Option<Seq<char>>,
    pub ring: Option<u32>,
    pub ontology: Option<Seq<char>>,
    pub axiology: Option<Seq<char>>,
    pub ethics: Option<Seq<char>>,
    pub epistemology: Option<Seq<char>>,
    pub broader: Seq<Seq<char>>,
    pub narrower: Seq<Seq<char>>,
    pub related: Seq<Seq<char>>,
    pub see_also: Seq<Seq<char>>,
}

impl View for ExportNode {
    type V = ConceptModel;

    open spec fn view(&self) -> ConceptModel {
        ConceptModel {
            term: self.term@,
            label: self.label@,
            definition: opt_text(self.definition),
            ring: self.ring,
            ontology: opt_text(self.ontology),
            axiology: opt_text(self.axiology),
            ethics: opt_text(self.ethics),
            epistemology: opt_text(self.epistemology),
            broader: texts(self.broader@),
            narrower: texts(self.narrower@),
            related: texts(self.related@),
            see_also: texts(self.see_also@),
        }
    }
}

/// What a list of nodes is.
pub open spec fn concepts_of(nodes: Seq<ExportNode>) -> Seq<ConceptModel> {
    Seq::new(nodes.len(), |i: int| nodes[i]@)
}

/// The export of an ontology.
#[derive(Debug)]
pub struct ExportGraph {
    pub base_iri: String,
    pub vocab_iri: String,
    pub scheme_name: String,
    pub scheme_description: String,
    pub rings: Vec<ExportRing>,
    pub nodes: Vec<ExportNode>,
}

/// What an export is.
pub struct GraphModel {
    pub base_iri: Seq<char>,
    pub vocab_iri: Seq<char>,
    pub scheme_name: Seq<char>,
    pub scheme_description: Seq<char>,
    pub rings: Seq<RingModel>,
    pub nodes: Seq<ConceptModel>,
}

impl View for ExportGraph {
    type V = GraphModel;

    open spec fn view(&self) -> GraphModel {
        GraphModel {
            base_iri: self.base_iri@,
            vocab_iri: self.vocab_iri@,
            scheme_name: self.scheme_name@,
            scheme_description: self.scheme_description@,
            rings: export_rings_of(self.rings@),
            nodes: concepts_of(self.nodes@),
        }
    }
}

/// The IRI of a term.
pub open spec fn term_iri_of(base_iri: Seq<char>, term: Seq<char>) -> Seq<char> {
    base_iri + term
}

/// The IRI of a ring.
pub open spec fn ring_iri_of(base_iri: Seq<char>, level: u32) -> Seq<char> {
    base_iri + "ring/"@ + decimal(level as nat)
}

impl ExportGraph {
    /// The IRI of a term.
    pub fn term_iri(&self, term: &str) -> (r: String)
        ensures
            r@ == term_iri_of(self@.base_iri, term@),
    {
        let mut r = self.base_iri.clone();
        r.append(term);
        r
    }

    /// The IRI of a ring.
    pub fn ring_iri(&self, level: u32) -> (r: String)
        ensures
            r@ == ring_iri_of(self@.base_iri, level),
    {
        let mut r = self.base_iri.clone();
        r.append("ring/");
        r.append(decimal_text(level as u64).as_str());
        r
    }
}

// ---------------------------------------------------------------------------
// IRIs
// ---------------------------------------------------------------------------

/// A base IRI as it is used: without white space around it, ending in `/` or
/// `#` so that term names append cleanly.
pub open spec fn normal_base(base: Seq<char>) -> Seq<char> {
    let t = trim(base);
    if ends(t, "/"@) || ends(t, "#"@) {
        t
    } else {
        t + "/"@
    }
}

/// A base IRI must end in `/` or `#` so term names append cleanly.
pub fn normalize_base_iri(base: &str) -> (r: String)
    ensures
        r@ == normal_base(base@),
{
    let cs = chars_of(base);
    let t = trimmed(cs.as_slice());
    let mut r = text_of(t);
    if !(ends_with(t, "/") || ends_with(t, "#")) {
        r.append("/");
    }
    r
}

/// A character that may stand in an IRI.
pub open spec fn iri_char(c: char) -> bool {
    !is_white_space(c) && !is_control_char(c) && !"<>\"{}|^`\\"@.contains(c)
}

/// A text that can stand between `<` and `>` as an IRI.
pub open spec fn safe_iri(s: Seq<char>) -> bool {
    s.len() > 0 && forall|i: int| 0 <= i < s.len() ==> iri_char(#[trigger] s[i])
}

/// Whether a text can stand as an IRI.
pub fn is_safe_iri(s: &str) -> (r: bool)
    ensures
        r == safe_iri(s@),
{
    let cs = chars_of(s);
    if cs.len() == 0 {
        return false;
    }
    for i in 0..cs.len()
        invariant
            cs@ == s@,
            forall|j: int| 0 <= j < i ==> iri_char(#[trigger] s@[j]),
    {
        if white_space(cs[i]) || control_char(cs[i]) || is_one_of(cs[i], "<>\"{}|^`\\") {
            assert(!iri_char(s@[i as int]));
            return false;
        }
    }
    true
}

/// A character that may stand in a term's IRI segment.
pub open spec fn segment_char(c: char) -> bool {
    ('a' <= c && c <= 'z') || is_digit(c) || c == '-' || c == '_'
}

/// A text that can stand as an IRI segment.
pub open spec fn safe_segment(s: Seq<char>) -> bool {
    s.len() > 0 && forall|i: int| 0 <= i < s.len() ==> segment_char(#[trigger] s[i])
}

/// Whether a text can stand as an IRI segment.
pub fn is_safe_iri_segment(s: &str) -> (r: bool)
    ensures
        r == safe_segment(s@),
{
    let cs = chars_of(s);
    if cs.len() == 0 {
        return false;
    }
    for i in 0..cs.len()
        invariant
            cs@ == s@,
            forall|j: int| 0 <= j < i ==> segment_char(#[trigger] s@[j]),
    {
        let c = cs[i];
        if !(('a' <= c && c <= 'z') || digit(c) || c == '-' || c == '_') {
            assert(!segment_char(s@[i as int]));
            return false;
        }
    }
    true
}

// ---------------------------------------------------------------------------
// Building
// ---------------------------------------------------------------------------

/// The texts of a list that are also in another.
pub open spec fn common(list: Seq<Seq<char>>, other: Seq<Seq<char>>) -> Seq<Seq<char>>
    decreases list.len(),
{
    if list.len() == 0 {
        Seq::empty()
    } else if other.contains(list.last()) {
        common(list.drop_last(), other).push(list.last())
    } else {
        common(list.drop_last(), other)
    }
}

/// The rings of the export: all of them, or the one of a level, each with the
/// terms that have a node.
pub open spec fn export_rings(
    rings: Seq<RingModel>,
    ring: Option<u32>,
    existing: Seq<Seq<char>>,
) -> Seq<RingModel>
    decreases rings.len(),
{
    if rings.len() == 0 {
        Seq::empty()
    } else {
        let front = export_rings(rings.drop_last(), ring, existing);
        let r = rings.last();
        if ring is Some && ring->Some_0 != r.level {
            front
        } else {
            front.push(RingModel { terms: common(r.terms, existing), ..r })
        }
    }
}

/// The ring of a term: the first one that declares it.
pub open spec fn ring_of(rings: Seq<RingModel>, term: Seq<char>) -> Option<u32>
    decreases rings.len(),
{
    if rings.len() == 0 {
        None
    } else {
        match ring_of(rings.drop_last(), term) {
            Some(level) => Some(level),
            None => if rings.last().terms.contains(term) {
                Some(rings.last().level)
            } else {
                None
            },
        }
    }
}

/// What an export covers: the terms that have a node, the rings, and the one
/// ring it is restricted to.
pub struct Coverage {
    pub existing: Seq<Seq<char>>,
    pub rings: Seq<RingModel>,
    pub ring: Option<u32>,
}

/// A term is exported.
pub open spec fn included(c: Coverage, term: Seq<char>) -> bool {
    match c.ring {
        Some(level) => ring_of(c.rings, term) == Some(level),
        None => true,
    }
}

/// A link from one term to another is exported: no link to itself, to a term
/// without a node, or to one outside the export.
pub open spec fn edge(c: Coverage, from: Seq<char>, to: Seq<char>) -> bool {
    to != from && c.existing.contains(to) && included(c, to)
}

/// The terms that a node's links point at with a relation.
pub open spec fn linked(
    c: Coverage,
    from: Seq<char>,
    links: Seq<LinkModel>,
    relation: Relation,
) -> Seq<Seq<char>>
    decreases links.len(),
{
    if links.len() == 0 {
        Seq::empty()
    } else {
        let front = linked(c, from, links.drop_last(), relation);
        if links.last().relation == relation && edge(c, from, links.last().term) {
            front.push(links.last().term)
        } else {
            front
        }
    }
}

/// Some link points at a term with a relation.
pub open spec fn links_with(links: Seq<LinkModel>, to: Seq<char>, relation: Relation) -> bool {
    exists|i: int|
        0 <= i < links.len() && (#[trigger] links[i]).term == to && links[i].relation == relation
}

/// The exported nodes that link a term with a relation.
pub open spec fn linking(
    c: Coverage,
    all: Seq<FileModel>,
    to: Seq<char>,
    relation: Relation,
) -> Seq<Seq<char>>
    decreases all.len(),
{
    if all.len() == 0 {
        Seq::empty()
    } else {
        let front = linking(c, all.drop_last(), to, relation);
        let f = all.last();
        if edge(c, to, f.term) && links_with(typed_links(f.content), to, relation) {
            front.push(f.term)
        } else {
            front
        }
    }
}

/// The texts of a list that can stand as IRIs.
pub open spec fn safe_iris(list: Seq<Seq<char>>) -> Seq<Seq<char>>
    decreases list.len(),
{
    if list.len() == 0 {
        Seq::empty()
    } else if safe_iri(list.last()) {
        safe_iris(list.drop_last()).push(list.last())
    } else {
        safe_iris(list.drop_last())
    }
}

/// The lay definition of a node as prose, unless that is empty.
pub open spec fn plain_definition(content: Seq<char>) -> Option<Seq<char>> {
    match definition(content) {
        None => None,
        Some(d) => if plain(d).len() == 0 {
            None
        } else {
            Some(plain(d))
        },
    }
}

/// A node with a title as it is exported.
pub open spec fn concept_of(
    c: Coverage,
    all: Seq<FileModel>,
    f: FileModel,
    label: Seq<char>,
) -> ConceptModel {
    let node = node_of(f.content, label);
    let links = typed_links(f.content);
    ConceptModel {
        term: f.term,
        label,
        definition: plain_definition(f.content),
        ring: ring_of(c.rings, f.term),
        ontology: node.ontology,
        axiology: node.axiology,
        ethics: node.ethics,
        epistemology: node.epistemology,
        broader: sorted_set(
            linked(c, f.term, links, Relation::Broader) + linking(
                c,
                all,
                f.term,
                Relation::Narrower,
            ),
        ),
        narrower: sorted_set(
            linked(c, f.term, links, Relation::Narrower) + linking(
                c,
                all,
                f.term,
                Relation::Broader,
            ),
        ),
        related: sorted_set(linked(c, f.term, links, Relation::Related)),
        see_also: safe_iris(external_links(f.content)),
    }
}

/// The error for a term that cannot be used in an IRI.
pub open spec fn bad_segment(term: Seq<char>) -> Seq<char> {
    "Term '"@ + term + "' cannot be used as an IRI segment (allowed: a-z, 0-9, '-', '_')"@
}

/// The error for a node without a title.
pub open spec fn untitled(term: Seq<char>) -> Seq<char> {
    term + ".md: No title (# heading) found"@
}

/// The exported nodes among the first `n`, or the first error.
pub open spec fn concepts(c: Coverage, all: Seq<FileModel>, n: nat) -> Result<
    Seq<ConceptModel>,
    Seq<char>,
>
    decreases n,
{
    if n == 0 {
        Ok(Seq::empty())
    } else {
        match concepts(c, all, (n - 1) as nat) {
            Err(e) => Err(e),
            Ok(list) => {
                let f = all[n - 1];
                if !included(c, f.term) {
                    Ok(list)
                } else if !safe_segment(f.term) {
                    Err(bad_segment(f.term))
                } else {
                    match title(f.content) {
                        None => Err(untitled(f.term)),
                        Some(label) => Ok(list.push(concept_of(c, all, f, label))),
                    }
                }
            },
        }
    }
}

/// The error for an IRI that is not one.
pub open spec fn bad_iri(what: Seq<char>, iri: Seq<char>) -> Seq<char> {
    what + " '"@ + iri + "' contains characters not allowed in an IRI"@
}

/// The error for a ring that is not defined.
pub open spec fn no_ring(level: u32) -> Seq<char> {
    "Ring "@ + decimal(level as nat) + " not defined in existence.toml"@
}

/// The base IRI of an export: the one given, or that of the manifest, or the
/// default.
pub open spec fn base_of(config: ConfigModel, base_iri: Option<Seq<char>>) -> Seq<char> {
    normal_base(
        match base_iri {
            Some(b) => b,
            None => match config.meta.base_iri {
                Some(b) => b,
                None => DEFAULT_BASE_IRI@,
            },
        },
    )
}

/// The vocabulary IRI of an export: that of the manifest, or the default.
pub open spec fn vocab_of(config: ConfigModel) -> Seq<char> {
    match config.meta.vocab_iri {
        Some(v) => v,
        None => DEFAULT_VOCAB_IRI@,
    }
}

/// What an export of an ontology covers.
pub open spec fn coverage(
    config: ConfigModel,
    all: Seq<FileModel>,
    ring: Option<u32>,
) -> Coverage {
    Coverage {
        existing: terms_of(all),
        rings: export_rings(by_level(config.rings), ring, terms_of(all)),
        ring,
    }
}

/// The export of an ontology, or why there is none.
pub open spec fn graph_of(
    config: ConfigModel,
    all: Seq<FileModel>,
    ring: Option<u32>,
    base_iri: Option<Seq<char>>,
) -> Result<GraphModel, Seq<char>> {
    let base = base_of(config, base_iri);
    let vocab = vocab_of(config);
    let c = coverage(config, all, ring);
    if !safe_iri(base) {
        Err(bad_iri("base IRI"@, base))
    } else if !safe_iri(vocab) {
        Err(bad_iri("vocab IRI"@, vocab))
    } else if ring is Some && ring_at(config.rings, ring->Some_0) is None {
        Err(no_ring(ring->Some_0))
    } else {
        match concepts(c, all, all.len()) {
            Err(e) => Err(e),
            Ok(nodes) => Ok(
                GraphModel {
                    base_iri: base,
                    vocab_iri: vocab,
                    scheme_name: config.meta.name,
                    scheme_description: config.meta.description,
                    rings: c.rings,
                    nodes,
                },
            ),
        }
    }
}

fn in_common(list: &Vec<String>, other: &Vec<String>) -> (r: Vec<String>)
    ensures
        texts(r@) == common(texts(list@), texts(other@)),
{
    let ghost all = texts(list@);
    let mut r: Vec<String> = Vec::new();
    assert(texts(r@) =~= common(all.take(0), texts(other@)));
    for i in 0..list.len()
        invariant
            all == texts(list@),
            texts(r@) == common(all.take(i as int), texts(other@)),
    {
        assert(all.take(i + 1).drop_last() == all.take(i as int));
        assert(all.take(i + 1).last() == list@[i as int]@);
        if contains_text(other, list[i].as_str()) {
            proof {
                lemma_push_text(r@, list@[i as int]);
            }
            r.push(list[i].clone());
        }
    }
    assert(all.take(list@.len() as int) == all);
    r
}

fn build_rings(rings: &Vec<Ring>, ring: Option<u32>, existing: &Vec<String>) -> (r: Vec<
    ExportRing,
>)
    ensures
        export_rings_of(r@) == export_rings(rings_of(rings@), ring, texts(existing@)),
{
    let ghost all = rings_of(rings@);
    let mut r: Vec<ExportRing> = Vec::new();
    assert(export_rings_of(r@) =~= export_rings(all.take(0), ring, texts(existing@)));
    for i in 0..rings.len()
        invariant
            all == rings_of(rings@),
            export_rings_of(r@) == export_rings(all.take(i as int), ring, texts(existing@)),
    {
        assert(all.take(i + 1).drop_last() == all.take(i as int));
        assert(all.take(i + 1).last() == rings@[i as int]@);
        let skip = match ring {
            Some(only) => only != rings[i].level,
            None => false,
        };
        if !skip {
            let ghost before = r@;
            let x = ExportRing {
                level: rings[i].level,
                name: rings[i].name.clone(),
                description: rings[i].description.clone(),
                terms: in_common(&rings[i].terms, existing),
            };
            r.push(x);
            assert(export_rings_of(r@) =~= export_rings_of(before).push(x@));
        }
    }
    assert(all.take(rings@.len() as int) == all);
    r
}

fn find_ring(rings: &Vec<ExportRing>, term: &str) -> (r: Option<u32>)
    ensures
        r == ring_of(export_rings_of(rings@), term@),
{
    let ghost all = export_rings_of(rings@);
    let mut r: Option<u32> = None;
    assert(all.take(0) =~= Seq::<RingModel>::empty());
    for i in 0..rings.len()
        invariant
            all == export_rings_of(rings@),
            r == ring_of(all.take(i as int), term@),
    {
        assert(all.take(i + 1).drop_last() == all.take(i as int));
        assert(all.take(i + 1).last() == rings@[i as int]@);
        if r.is_none() && contains_text(&rings[i].terms, term) {
            r = Some(rings[i].level);
        }
    }
    assert(all.take(rings@.len() as int) == all);
    r
}

/// What an export covers.
struct Covered {
    existing: Vec<String>,
    rings: Vec<ExportRing>,
    ring: Option<u32>,
}

impl View for Covered {
    type V = Coverage;

    closed spec fn view(&self) -> Coverage {
        Coverage {
            existing: texts(self.existing@),
            rings: export_rings_of(self.rings@),
            ring: self.ring,
        }
    }
}

fn is_included(c: &Covered, term: &str) -> (r: bool)
    ensures
        r == included(c@, term@),
{
    match c.ring {
        Some(level) => match find_ring(&c.rings, term) {
            Some(l) => l == level,
            None => false,
        },
        None => true,
    }
}

fn is_edge(c: &Covered, from: &str, to: &str) -> (r: bool)
    ensures
        r == edge(c@, from@, to@),
{
    !same(to, from) && contains_text(&c.existing, to) && is_included(c, to)
}

fn add_linked(
    c: &Covered,
    from: &str,
    links: &Vec<TypedLink>,
    relation: Relation,
) -> (r: Vec<String>)
    ensures
        texts(r@) == linked(c@, from@, links_of(links@), relation),
{
    let ghost all = links_of(links@);
    let mut r: Vec<String> = Vec::new();
    assert(texts(r@) =~= linked(c@, from@, all.take(0), relation));
    for i in 0..links.len()
        invariant
            all == links_of(links@),
            texts(r@) == linked(c@, from@, all.take(i as int), relation),
    {
        assert(all.take(i + 1).drop_last() == all.take(i as int));
        assert(all.take(i + 1).last() == links@[i as int]@);
        if links[i].relation == relation && is_edge(c, from, links[i].term.as_str()) {
            proof {
                lemma_push_text(r@, links@[i as int].term);
            }
            r.push(links[i].term.clone());
        }
    }
    assert(all.take(links@.len() as int) == all);
    r
}

fn has_link(links: &Vec<TypedLink>, to: &str, relation: Relation) -> (r: bool)
    ensures
        r == links_with(links_of(links@), to@, relation),
{
    for i in 0..links.len()
        invariant
            forall|j: int|
                0 <= j < i ==> !((#[trigger] links_of(links@)[j]).term == to@ && links_of(
                    links@,
                )[j].relation == relation),
    {
        assert(links_of(links@)[i as int] == links@[i as int]@);
        if links[i].relation == relation && same(links[i].term.as_str(), to) {
            return true;
        }
    }
    false
}

/// The links of each node.
pub open spec fn link_lists(links: Seq<Vec<TypedLink>>, all: Seq<FileModel>) -> bool {
    links.len() == all.len() && forall|i: int|
        0 <= i < links.len() ==> links_of((#[trigger] links[i])@) == typed_links(all[i].content)
}

fn add_linking(
    c: &Covered,
    all: &Vec<NodeFile>,
    links: &Vec<Vec<TypedLink>>,
    to: &str,
    relation: Relation,
    list: &mut Vec<String>,
)
    requires
        link_lists(links@, files(all@)),
    ensures
        texts(final(list)@) == texts(old(list)@) + linking(c@, files(all@), to@, relation),
{
    let ghost every = files(all@);
    let ghost start = texts(list@);
    assert(start + linking(c@, every.take(0), to@, relation) =~= start);
    for i in 0..all.len()
        invariant
            every == files(all@),
            link_lists(links@, every),
            texts(list@) == start + linking(c@, every.take(i as int), to@, relation),
    {
        assert(every.take(i + 1).drop_last() == every.take(i as int));
        assert(every.take(i + 1).last() == all@[i as int]@);
        assert(links_of(links@[i as int]@) == typed_links(every[i as int].content));
        if is_edge(c, to, all[i].term.as_str()) && has_link(&links[i], to, relation) {
            proof {
                lemma_push_text(list@, all@[i as int].term);
                assert((start + linking(c@, every.take(i as int), to@, relation)).push(
                    all@[i as int].term@,
                ) =~= start + linking(c@, every.take(i as int), to@, relation).push(
                    all@[i as int].term@,
                ));
            }
            list.push(all[i].term.clone());
        }
    }
    assert(every.take(all@.len() as int) == every);
}

fn keep_safe_iris(list: &Vec<String>) -> (r: Vec<String>)
    ensures
        texts(r@) == safe_iris(texts(list@)),
{
    let ghost all = texts(list@);
    let mut r: Vec<String> = Vec::new();
    assert(texts(r@) =~= safe_iris(all.take(0)));
    for i in 0..list.len()
        invariant
            all == texts(list@),
            texts(r@) == safe_iris(all.take(i as int)),
    {
        assert(all.take(i + 1).drop_last() == all.take(i as int));
        assert(all.take(i + 1).last() == list@[i as int]@);
        if is_safe_iri(list[i].as_str()) {
            proof {
                lemma_push_text(r@, list@[i as int]);
            }
            r.push(list[i].clone());
        }
    }
    assert(all.take(list@.len() as int) == all);
    r
}

fn definition_text(content: &str) -> (r: Option<String>)
    ensures
        opt_text(r) == plain_definition(content@),
{
    match extract_definition(content) {
        None => None,
        Some(d) => {
            let p = plain_text(d.as_str());
            if p.as_str().unicode_len() == 0 {
                None
            } else {
                Some(p)
            }
        },
    }
}

fn build_node(
    c: &Covered,
    all: &Vec<NodeFile>,
    links: &Vec<Vec<TypedLink>>,
    i: usize,
    node: Node,
) -> (r: ExportNode)
    requires
        i < all@.len(),
        link_lists(links@, files(all@)),
        title(all@[i as int].content@) is Some,
        node@ == node_of(all@[i as int].content@, title(all@[i as int].content@)->Some_0),
    ensures
        r@ == concept_of(
            c@,
            files(all@),
            all@[i as int]@,
            title(all@[i as int].content@)->Some_0,
        ),
{
    let f = &all[i];
    let mine = &links[i];
    assert(files(all@)[i as int] == f@);
    assert(links_of(links@[i as int]@) == typed_links(files(all@)[i as int].content));
    let mut up = add_linked(c, f.term.as_str(), mine, Relation::Broader);
    add_linking(c, all, links, f.term.as_str(), Relation::Narrower, &mut up);
    let mut down = add_linked(c, f.term.as_str(), mine, Relation::Narrower);
    add_linking(c, all, links, f.term.as_str(), Relation::Broader, &mut down);
    let side = add_linked(c, f.term.as_str(), mine, Relation::Related);
    let urls = extract_external_links(f.content.as_str());
    ExportNode {
        term: f.term.clone(),
        label: node.title,
        definition: definition_text(f.content.as_str()),
        ring: find_ring(&c.rings, f.term.as_str()),
        ontology: node.ontology,
        axiology: node.axiology,
        ethics: node.ethics,
        epistemology: node.epistemology,
        broader: sort_set(&up),
        narrower: sort_set(&down),
        related: sort_set(&side),
        see_also: keep_safe_iris(&urls),
    }
}

proof fn lemma_concepts_err(c: Coverage, all: Seq<FileModel>, n: nat, m: nat)
    requires
        n <= m,
        concepts(c, all, n) is Err,
    ensures
        concepts(c, all, m) == concepts(c, all, n),
    decreases m,
{
    if n < m {
        lemma_concepts_err(c, all, n, (m - 1) as nat);
    }
}

fn build_nodes(c: &Covered, all: &Vec<NodeFile>) -> (r: Result<Vec<ExportNode>, String>)
    ensures
        match r {
            Ok(nodes) => concepts(c@, files(all@), all@.len()) == Ok::<
                Seq<ConceptModel>,
                Seq<char>,
            >(concepts_of(nodes@)),
            Err(e) => concepts(c@, files(all@), all@.len()) == Err::<
                Seq<ConceptModel>,
                Seq<char>,
            >(e@),
        },
{
    let ghost every = files(all@);
    let mut links: Vec<Vec<TypedLink>> = Vec::new();
    for i in 0..all.len()
        invariant
            every == files(all@),
            links@.len() == i,
            forall|k: int|
                0 <= k < i ==> links_of((#[trigger] links@[k])@) == typed_links(every[k].content),
    {
        links.push(extract_typed_links(all[i].content.as_str()));
    }
    let mut nodes: Vec<ExportNode> = Vec::new();
    assert(concepts_of(nodes@) =~= Seq::<ConceptModel>::empty());
    for i in 0..all.len()
        invariant
            every == files(all@),
            link_lists(links@, every),
            concepts(c@, every, i as nat) == Ok::<Seq<ConceptModel>, Seq<char>>(
                concepts_of(nodes@),
            ),
    {
        let f = &all[i];
        assert(every[i as int] == f@);
        if is_included(c, f.term.as_str()) {
            if !is_safe_iri_segment(f.term.as_str()) {
                let mut e = "Term '".to_string();
                e.append(f.term.as_str());
                e.append("' cannot be used as an IRI segment (allowed: a-z, 0-9, '-', '_')");
                proof {
                    assert(concepts(c@, every, (i + 1) as nat) is Err);
                    lemma_concepts_err(c@, every, (i + 1) as nat, every.len());
                }
                return Err(e);
            }
            match Node::parse(f.content.as_str()) {
                Err(_) => {
                    let mut e = f.term.clone();
                    e.append(".md: No title (# heading) found");
                    proof {
                        assert(concepts(c@, every, (i + 1) as nat) is Err);
                        lemma_concepts_err(c@, every, (i + 1) as nat, every.len());
                    }
                    return Err(e);
                },
                Ok(node) => {
                    let ghost before = nodes@;
                    let x = build_node(c, all, &links, i, node);
                    nodes.push(x);
                    assert(concepts_of(nodes@) =~= concepts_of(before).push(x@));
                },
            }
        }
    }
    Ok(nodes)
}

fn iri_error(what: &str, iri: &str) -> (r: String)
    ensures
        r@ == bad_iri(what@, iri@),
{
    let mut e = what.to_string();
    e.append(" '");
    e.append(iri);
    e.append("' contains characters not allowed in an IRI");
    e
}

/// The terms of nodes.
pub fn node_terms(all: &Vec<NodeFile>) -> (r: Vec<String>)
    ensures
        texts(r@) == terms_of(files(all@)),
{
    let ghost list = terms_of(files(all@));
    let mut r: Vec<String> = Vec::new();
    assert(texts(r@) =~= list.take(0));
    for i in 0..all.len()
        invariant
            list == terms_of(files(all@)),
            texts(r@) == list.take(i as int),
    {
        proof {
            lemma_push_text(r@, all@[i as int].term);
            lemma_take_next(list, i as int);
        }
        r.push(all[i].term.clone());
    }
    assert(list.take(all@.len() as int) == list);
    r
}

/// Build the export model from a manifest and the nodes.
///
/// `ring` restricts the export to one ring (nodes and edges). `base_iri`
/// overrides that of the manifest; the built-in default applies when neither
/// is set.
pub fn build(
    config: &Config,
    all: &Vec<NodeFile>,
    ring: Option<u32>,
    base_iri: Option<&str>,
) -> (r: Result<ExportGraph, String>)
    ensures
        match r {
            Ok(g) => graph_of(config@, files(all@), ring, opt_str(base_iri)) == Ok::<
                GraphModel,
                Seq<char>,
            >(g@),
            Err(e) => graph_of(config@, files(all@), ring, opt_str(base_iri)) == Err::<
                GraphModel,
                Seq<char>,
            >(e@),
        },
{
    let base = match base_iri {
        Some(b) => normalize_base_iri(b),
        None => match &config.meta.base_iri {
            Some(b) => normalize_base_iri(b.as_str()),
            None => normalize_base_iri(DEFAULT_BASE_IRI),
        },
    };
    let vocab = match &config.meta.vocab_iri {
        Some(v) => v.clone(),
        None => DEFAULT_VOCAB_IRI.to_string(),
    };
    if !is_safe_iri(base.as_str()) {
        return Err(iri_error("base IRI", base.as_str()));
    }
    if !is_safe_iri(vocab.as_str()) {
        return Err(iri_error("vocab IRI", vocab.as_str()));
    }
    if let Some(level) = ring {
        if config.get_ring(level).is_none() {
            let mut e = "Ring ".to_string();
            e.append(decimal_text(level as u64).as_str());
            e.append(" not defined in existence.toml");
            return Err(e);
        }
    }
    let existing = node_terms(all);
    let sorted_rings = config.rings_sorted();
    let rings = build_rings(&sorted_rings, ring, &existing);
    let c = Covered { existing, rings, ring };
    assert(c@ == coverage(config@, files(all@), ring));
    match build_nodes(&c, all) {
        Err(e) => Err(e),
        Ok(nodes) => Ok(
            ExportGraph {
                base_iri: base,
                vocab_iri: vocab,
                scheme_name: config.meta.name.clone(),
                scheme_description: config.meta.description.clone(),
                rings: c.rings,
                nodes,
            },
        ),
    }
}

/// An export as it is printed.
#[derive(Debug)]
pub enum Rendered {
    Turtle(String),
    JsonLd(Json),
}

/// What is printed.
pub enum RenderedModel {
    Turtle(Seq<char>),
    JsonLd(JsonModel),
}

impl View for Rendered {
    type V = RenderedModel;

    open spec fn view(&self) -> RenderedModel {
        match self {
            Rendered::Turtle(text) => RenderedModel::Turtle(text@),
            Rendered::JsonLd(doc) => RenderedModel::JsonLd(doc@),
        }
    }
}

/// An export in a format, or why there is none.
pub open spec fn in_format(g: GraphModel, format: Seq<char>) -> Result<RenderedModel, Seq<char>> {
    if format == "turtle"@ || format == "ttl"@ {
        Ok(RenderedModel::Turtle(turtle::turtle(g)))
    } else if format == "jsonld"@ || format == "json-ld"@ {
        Ok(RenderedModel::JsonLd(jsonld::document_json(g)))
    } else {
        Err(
            "Unknown export format '"@ + format + "' (expected \"turtle\" or \"jsonld\")"@,
        )
    }
}

/// What is printed for an ontology, or why nothing is.
pub open spec fn export_of(
    config: ConfigModel,
    all: Seq<FileModel>,
    ring: Option<u32>,
    format: Seq<char>,
    base_iri: Option<Seq<char>>,
) -> Result<RenderedModel, Seq<char>> {
    match graph_of(config, all, ring, base_iri) {
        Err(e) => Err(e),
        Ok(g) => in_format(g, format),
    }
}

/// Export an ontology in a format.
pub fn run(
    config: &Config,
    all: &Vec<NodeFile>,
    ring: Option<u32>,
    format: &str,
    base_iri: Option<&str>,
) -> (r: Result<Rendered, String>)
    ensures
        match r {
            Ok(out) => export_of(config@, files(all@), ring, format@, opt_str(base_iri)) == Ok::<
                RenderedModel,
                Seq<char>,
            >(out@),
            Err(e) => export_of(config@, files(all@), ring, format@, opt_str(base_iri)) == Err::<
                RenderedModel,
                Seq<char>,
            >(e@),
        },
{
    match build(config, all, ring, base_iri) {
        Err(e) => Err(e),
        Ok(g) => {
            if same(format, "turtle") || same(format, "ttl") {
                Ok(Rendered::Turtle(to_turtle(&g)))
            } else if same(format, "jsonld") || same(format, "json-ld") {
                Ok(Rendered::JsonLd(to_jsonld(&g)))
            } else {
                let mut e = "Unknown export format '".to_string();
                e.append(format);
                e.append("' (expected \"turtle\" or \"jsonld\")");
                Err(e)
            }
        },
    }
}

}
