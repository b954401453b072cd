//! What holds of an export as a whole.

use vstd::prelude::*;

use crate::commands::export::jsonld::graph_json;
use crate::commands::export::{
    common, concept_of, concepts, coverage, edge, export_rings, graph_of, included, in_format,
    linked, linking, links_with, normal_base, ring_of, safe_iri, safe_iris, safe_segment,
    ConceptModel, Coverage, GraphModel, RenderedModel,
};
use crate::commands::export::jsonld::document_json;
use crate::commands::export::turtle::turtle;
use crate::config::{by_level, ring_at, rings_stand_by_level, level_ordered, ConfigModel, RingModel};
use crate::markdown::{
    definition, external_links, plain, section, terms_of, title, typed_links, FileModel, LinkModel,
    Relation,
};
use crate::order::{lemma_contains_last, lemma_sorted_set, sorted_set, strictly_ascending};
use crate::text::{ends, is_control_char, is_white_space, trim, trim_end, trim_start};

verus! {

/// A base IRI ends in `/` or `#`, so that term names append cleanly, and
/// making it so a second time changes nothing.
pub proof fn a_base_iri_ends_where_terms_append(base: Seq<char>)
    ensures
        ends(normal_base(base), "/"@) || ends(normal_base(base), "#"@),
        normal_base(normal_base(base)) == normal_base(base),
{
    let t = trim(base);
    let r = normal_base(base);
    lemma_trimmed(base);
    reveal_strlit("/");
    reveal_strlit("#");
    if ends(t, "/"@) {
        lemma_ends_in(t, "/"@);
    } else if ends(t, "#"@) {
        lemma_ends_in(t, "#"@);
    } else {
        assert(r.skip(r.len() - "/"@.len()) =~= "/"@);
        assert(r.last() == '/');
        if t.len() > 0 {
            assert(r[0] == t[0]);
        }
    }
    lemma_trims_to_itself(r);
}

proof fn lemma_ends_in(s: Seq<char>, mark: Seq<char>)
    requires
        ends(s, mark),
        mark.len() == 1,
    ensures
        s.len() > 0,
        s.last() == mark[0],
{
    assert(s.skip(s.len() - 1)[0] == s.last());
}

proof fn lemma_trims_to_itself(s: Seq<char>)
    requires
        s.len() > 0,
        !is_white_space(s[0]),
        !is_white_space(s.last()),
    ensures
        trim(s) == s,
{
}

proof fn lemma_start_trimmed(s: Seq<char>)
    ensures
        trim_start(s).len() > 0 ==> !is_white_space(trim_start(s)[0]),
    decreases s.len(),
{
    if s.len() > 0 && is_white_space(s[0]) {
        lemma_start_trimmed(s.skip(1));
    }
}

proof fn lemma_end_trimmed(s: Seq<char>)
    ensures
        trim_end(s).len() > 0 ==> trim_end(s)[0] == s[0],
    decreases s.len(),
{
    if s.len() > 0 && is_white_space(s.last()) {
        lemma_end_trimmed(s.drop_last());
    }
}

proof fn lemma_trimmed(s: Seq<char>)
    ensures
        trim(s).len() > 0 ==> !is_white_space(trim(s)[0]),
{
    lemma_start_trimmed(s);
    lemma_end_trimmed(trim_start(s));
    if trim(s).len() > 0 && trim_start(s).len() == 0 {
        assert(trim_end(trim_start(s)) == trim_start(s));
    }
}

proof fn lemma_linked(
    c: Coverage,
    from: Seq<char>,
    links: Seq<LinkModel>,
    relation: Relation,
    to: Seq<char>,
)
    ensures
        linked(c, from, links, relation).contains(to) <==> edge(c, from, to) && links_with(
            links,
            to,
            relation,
        ),
    decreases links.len(),
{
    if links.len() > 0 {
        let front = links.drop_last();
        lemma_linked(c, from, front, relation, to);
        let r = linked(c, from, links, relation);
        if links.last().relation == relation && edge(c, from, links.last().term) {
            lemma_contains_last(r, to);
            assert(r.drop_last() =~= linked(c, from, front, relation));
        }
        if links_with(front, to, relation) {
            let i = choose|i: int|
                0 <= i < front.len() && (#[trigger] front[i]).term == to && front[i].relation
                    == relation;
            assert(links[i] == front[i]);
        }
        if links_with(links, to, relation) {
            let i = choose|i: int|
                0 <= i < links.len() && (#[trigger] links[i]).term == to && links[i].relation
                    == relation;
            if i < front.len() {
                assert(front[i] == links[i]);
            }
        }
        if links.last().term == to && links.last().relation == relation {
            assert(links[links.len() - 1] == links.last());
        }
    }
}

/// The `i`-th node links a term with a relation.
pub open spec fn file_links(
    all: Seq<FileModel>,
    i: int,
    from: Seq<char>,
    to: Seq<char>,
    relation: Relation,
) -> bool {
    0 <= i < all.len() && all[i].term == from && links_with(
        typed_links(all[i].content),
        to,
        relation,
    )
}

proof fn lemma_linking(
    c: Coverage,
    all: Seq<FileModel>,
    to: Seq<char>,
    relation: Relation,
    from: Seq<char>,
)
    ensures
        linking(c, all, to, relation).contains(from) <==> edge(c, to, from) && exists|i: int|
            #[trigger] file_links(all, i, from, to, relation),
    decreases all.len(),
{
    if all.len() > 0 {
        let front = all.drop_last();
        lemma_linking(c, front, to, relation, from);
        let r = linking(c, all, to, relation);
        let f = all.last();
        if edge(c, to, f.term) && links_with(typed_links(f.content), to, relation) {
            lemma_contains_last(r, from);
            assert(r.drop_last() =~= linking(c, front, to, relation));
        }
        if exists|i: int| #[trigger] file_links(front, i, from, to, relation) {
            let i = choose|i: int| #[trigger] file_links(front, i, from, to, relation);
            assert(file_links(all, i, from, to, relation));
        }
        if exists|i: int| #[trigger] file_links(all, i, from, to, relation) {
            let i = choose|i: int| #[trigger] file_links(all, i, from, to, relation);
            if i < front.len() {
                assert(file_links(front, i, from, to, relation));
            }
        }
        if f.term == from && links_with(typed_links(f.content), to, relation) {
            assert(file_links(all, all.len() - 1, from, to, relation));
        }
    }
}

proof fn lemma_in_sum(a: Seq<Seq<char>>, b: Seq<Seq<char>>, x: Seq<char>)
    ensures
        sorted_set(a + b).contains(x) <==> a.contains(x) || b.contains(x),
{
    lemma_sorted_set(a + b);
    let s = a + b;
    if a.contains(x) {
        let i = choose|i: int| 0 <= i < a.len() && a[i] == x;
        assert(s[i] == x);
    }
    if b.contains(x) {
        let i = choose|i: int| 0 <= i < b.len() && b[i] == x;
        assert(s[a.len() + i] == x);
    }
    if s.contains(x) {
        let i = choose|i: int| 0 <= i < s.len() && s[i] == x;
        if i < a.len() {
            assert(a[i] == x);
        } else {
            assert(b[i - a.len()] == x);
        }
    }
}

/// Of two different nodes of the export, one is broader than the other
/// exactly when the other is narrower than it: the inverse of each titled
/// link stands on its target.
pub proof fn broader_and_narrower_are_inverse(
    c: Coverage,
    all: Seq<FileModel>,
    i: int,
    j: int,
    a: Seq<char>,
    b: Seq<char>,
)
    requires
        c.existing == terms_of(all),
        terms_of(all).no_duplicates(),
        0 <= i < all.len(),
        0 <= j < all.len(),
        i != j,
        included(c, all[i].term),
        included(c, all[j].term),
    ensures
        concept_of(c, all, all[i], a).broader.contains(all[j].term) <==> concept_of(
            c,
            all,
            all[j],
            b,
        ).narrower.contains(all[i].term),
{
    let x = all[i];
    let y = all[j];
    let terms = terms_of(all);
    assert(terms[i] == x.term && terms[j] == y.term);
    assert(x.term != y.term);
    assert(terms.contains(x.term) && terms.contains(y.term));
    let xl = typed_links(x.content);
    let yl = typed_links(y.content);
    lemma_linked(c, x.term, xl, Relation::Broader, y.term);
    lemma_linking(c, all, x.term, Relation::Narrower, y.term);
    lemma_in_sum(
        linked(c, x.term, xl, Relation::Broader),
        linking(c, all, x.term, Relation::Narrower),
        y.term,
    );
    lemma_linked(c, y.term, yl, Relation::Narrower, x.term);
    lemma_linking(c, all, y.term, Relation::Broader, x.term);
    lemma_in_sum(
        linked(c, y.term, yl, Relation::Narrower),
        linking(c, all, y.term, Relation::Broader),
        x.term,
    );
    if exists|k: int| #[trigger] file_links(all, k, y.term, x.term, Relation::Narrower) {
        let k = choose|k: int| #[trigger] file_links(all, k, y.term, x.term, Relation::Narrower);
        assert(terms[k] == terms[j]);
    }
    if exists|k: int| #[trigger] file_links(all, k, x.term, y.term, Relation::Broader) {
        let k = choose|k: int| #[trigger] file_links(all, k, x.term, y.term, Relation::Broader);
        assert(terms[k] == terms[i]);
    }
    if links_with(yl, x.term, Relation::Narrower) {
        assert(file_links(all, j, y.term, x.term, Relation::Narrower));
    }
    if links_with(xl, y.term, Relation::Broader) {
        assert(file_links(all, i, x.term, y.term, Relation::Broader));
    }
}

/// The export holds a node of the term.
pub open spec fn has_concept(nodes: Seq<ConceptModel>, term: Seq<char>) -> bool {
    exists|k: int| 0 <= k < nodes.len() && (#[trigger] nodes[k]).term == term
}

/// The exported node is that of one of the first `n` node files.
pub open spec fn from_file(
    c: Coverage,
    all: Seq<FileModel>,
    n: nat,
    x: ConceptModel,
    i: int,
) -> bool {
    &&& 0 <= i < n
    &&& i < all.len()
    &&& included(c, all[i].term)
    &&& title(all[i].content) matches Some(label) && x == concept_of(c, all, all[i], label)
}

/// The exported node is that of some of the first `n` node files.
pub open spec fn has_file(c: Coverage, all: Seq<FileModel>, n: nat, x: ConceptModel) -> bool {
    exists|i: int| #[trigger] from_file(c, all, n, x, i)
}

proof fn lemma_concepts(c: Coverage, all: Seq<FileModel>, n: nat)
    requires
        n <= all.len(),
        concepts(c, all, n) is Ok,
    ensures
        forall|i: int|
            0 <= i < n && included(c, (#[trigger] all[i]).term) ==> has_concept(
                concepts(c, all, n)->Ok_0,
                all[i].term,
            ),
        forall|k: int|
            0 <= k < concepts(c, all, n)->Ok_0.len() ==> has_file(
                c,
                all,
                n,
                #[trigger] concepts(c, all, n)->Ok_0[k],
            ),
    decreases n,
{
    if n > 0 {
        lemma_concepts(c, all, (n - 1) as nat);
        let before = concepts(c, all, (n - 1) as nat)->Ok_0;
        let list = concepts(c, all, n)->Ok_0;
        assert forall|i: int| 0 <= i < n && included(
            c,
            (#[trigger] all[i]).term,
        ) implies has_concept(list, all[i].term) by {
            if i < n - 1 {
                assert(has_concept(before, all[i].term));
                let k = choose|k: int|
                    0 <= k < before.len() && (#[trigger] before[k]).term == all[i].term;
                assert(list[k] == before[k]);
            } else {
                assert(list[list.len() - 1].term == all[i].term);
            }
        }
        assert forall|k: int| 0 <= k < list.len() implies has_file(
            c,
            all,
            n,
            #[trigger] list[k],
        ) by {
            if k < before.len() {
                assert(list[k] == before[k]);
                assert(has_file(c, all, (n - 1) as nat, before[k]));
                let i = choose|i: int| #[trigger]
                    from_file(c, all, (n - 1) as nat, before[k], i);
                assert(from_file(c, all, n, list[k], i));
            } else {
                assert(from_file(c, all, n, list[k], n - 1));
            }
        }
    }
}

/// Every link of an export stays in it: no node is linked to itself, and each
/// node that one is linked to, in whatever relation, is a node of the export.
pub proof fn links_stay_in_the_export(
    config: ConfigModel,
    all: Seq<FileModel>,
    ring: Option<u32>,
    base_iri: Option<Seq<char>>,
    k: int,
    to: Seq<char>,
)
    requires
        graph_of(config, all, ring, base_iri) matches Ok(g) && 0 <= k < g.nodes.len() && (
        g.nodes[k].broader.contains(to) || g.nodes[k].narrower.contains(to)
            || g.nodes[k].related.contains(to)),
    ensures
        graph_of(config, all, ring, base_iri) matches Ok(g) && to != g.nodes[k].term
            && has_concept(g.nodes, to),
{
    let c = coverage(config, all, ring);
    let g = graph_of(config, all, ring, base_iri)->Ok_0;
    lemma_concepts(c, all, all.len());
    let x = g.nodes[k];
    assert(has_file(c, all, all.len(), x));
    let i = choose|i: int| #[trigger] from_file(c, all, all.len(), x, i);
    assert(from_file(c, all, all.len(), x, i));
    let links = typed_links(all[i].content);
    lemma_linked(c, x.term, links, Relation::Broader, to);
    lemma_linked(c, x.term, links, Relation::Narrower, to);
    lemma_linked(c, x.term, links, Relation::Related, to);
    lemma_linking(c, all, x.term, Relation::Broader, to);
    lemma_linking(c, all, x.term, Relation::Narrower, to);
    lemma_in_sum(
        linked(c, x.term, links, Relation::Broader),
        linking(c, all, x.term, Relation::Narrower),
        to,
    );
    lemma_in_sum(
        linked(c, x.term, links, Relation::Narrower),
        linking(c, all, x.term, Relation::Broader),
        to,
    );
    lemma_sorted_set(linked(c, x.term, links, Relation::Related));
    assert(edge(c, x.term, to));
    let j = choose|j: int| 0 <= j < terms_of(all).len() && terms_of(all)[j] == to;
    assert(included(c, all[j].term));
}

/// An export restricted to a ring holds nodes of that ring alone.
pub proof fn a_ring_export_holds_that_ring(
    config: ConfigModel,
    all: Seq<FileModel>,
    level: u32,
    base_iri: Option<Seq<char>>,
    k: int,
)
    requires
        graph_of(config, all, Some(level), base_iri) matches Ok(g) && 0 <= k < g.nodes.len(),
    ensures
        graph_of(config, all, Some(level), base_iri) matches Ok(g) && g.nodes[k].ring == Some(level),
{
    let c = coverage(config, all, Some(level));
    let g = graph_of(config, all, Some(level), base_iri)->Ok_0;
    lemma_concepts(c, all, all.len());
    assert(has_file(c, all, all.len(), g.nodes[k]));
    let i = choose|i: int| #[trigger] from_file(c, all, all.len(), g.nodes[k], i);
    assert(from_file(c, all, all.len(), g.nodes[k], i));
}

/// The graph of the JSON-LD document has one entry for the scheme, one for
/// each ring and one for each concept.
pub proof fn the_graph_has_an_entry_for_each(g: GraphModel)
    ensures
        graph_json(g).len() == 1 + g.rings.len() + g.nodes.len(),
{
}

// ---------------------------------------------------------------------------
// Nodes
// ---------------------------------------------------------------------------

proof fn lemma_safe_iris(list: Seq<Seq<char>>, url: Seq<char>)
    ensures
        safe_iris(list).contains(url) <==> list.contains(url) && safe_iri(url),
    decreases list.len(),
{
    if list.len() > 0 {
        lemma_safe_iris(list.drop_last(), url);
        lemma_contains_last(list, url);
        if safe_iri(list.last()) {
            lemma_contains_last(safe_iris(list), url);
            assert(safe_iris(list).drop_last() =~= safe_iris(list.drop_last()));
        }
    }
}

/// A text that can stand between angle brackets: not empty, and free of
/// white space, control characters, angle brackets, quotation marks, braces,
/// bars, carets, ticks and backslashes.
pub open spec fn stands_in_brackets(s: Seq<char>) -> bool {
    s.len() > 0 && forall|i: int|
        0 <= i < s.len() ==> {
            let c = #[trigger] s[i];
            &&& !is_white_space(c)
            &&& !is_control_char(c)
            &&& c != '<'
            &&& c != '>'
            &&& c != '"'
            &&& c != '{'
            &&& c != '}'
            &&& c != '|'
            &&& c != '^'
            &&& c != '`'
            &&& c != '\\'
        }
}

/// An IRI is taken exactly when it can stand between angle brackets.
pub proof fn an_iri_stands_in_brackets(s: Seq<char>)
    ensures
        safe_iri(s) <==> stands_in_brackets(s),
{
    reveal_strlit("<>\"{}|^`\\");
    let set = "<>\"{}|^`\\"@;
    assert(set.len() == 9);
    assert(set[0] == '<' && set[1] == '>' && set[2] == '"' && set[3] == '{' && set[4] == '}'
        && set[5] == '|' && set[6] == '^' && set[7] == '`' && set[8] == '\\');
    assert forall|i: int| 0 <= i < s.len() implies (set.contains(#[trigger] s[i]) <==> (s[i] == '<'
        || s[i] == '>' || s[i] == '"' || s[i] == '{' || s[i] == '}' || s[i] == '|' || s[i] == '^'
        || s[i] == '`' || s[i] == '\\')) by {
        if set.contains(s[i]) {
            let k = choose|k: int| 0 <= k < set.len() && set[k] == s[i];
            assert(0 <= k < 9);
        }
    }
    if safe_iri(s) {
        assert forall|i: int| 0 <= i < s.len() implies !set.contains(#[trigger] s[i]) by {}
    }
    if stands_in_brackets(s) {
        assert forall|i: int| 0 <= i < s.len() implies crate::commands::export::iri_char(
            #[trigger] s[i],
        ) by {}
    }
}

/// The node at a place of the files is the one exported as `x`.
pub open spec fn exported_as(f: FileModel, x: ConceptModel) -> bool {
    &&& x.term == f.term
    &&& title(f.content) == Some(x.label)
    &&& x.ontology == section(f.content, "Ontology"@)
    &&& x.axiology == section(f.content, "Axiology"@)
    &&& x.ethics == section(f.content, "Ethics"@)
    &&& x.epistemology == section(f.content, "Epistemology"@)
    &&& match x.definition {
        Some(d) => d.len() > 0 && definition(f.content) is Some && d == plain(
            definition(f.content)->Some_0,
        ),
        None => definition(f.content) is None || plain(definition(f.content)->Some_0).len() == 0,
    }
    &&& forall|url: Seq<char>| #[trigger]
        x.see_also.contains(url) <==> external_links(f.content).contains(url)
            && stands_in_brackets(url)
}

proof fn lemma_exported_as(c: Coverage, all: Seq<FileModel>, f: FileModel, label: Seq<char>)
    requires
        title(f.content) == Some(label),
    ensures
        exported_as(f, concept_of(c, all, f, label)),
{
    let x = concept_of(c, all, f, label);
    assert forall|url: Seq<char>| #[trigger]
        x.see_also.contains(url) <==> external_links(f.content).contains(url)
            && stands_in_brackets(url) by {
        lemma_safe_iris(external_links(f.content), url);
        an_iri_stands_in_brackets(url);
    }
}

/// Every node of an export is that of some file: it has the file's term, the
/// title and each section of the file's text, the lay definition as prose
/// where there is one, and the references that can stand as IRIs.
pub proof fn a_node_is_exported_as_its_file_says(
    config: ConfigModel,
    all: Seq<FileModel>,
    ring: Option<u32>,
    base_iri: Option<Seq<char>>,
    k: int,
)
    requires
        graph_of(config, all, ring, base_iri) matches Ok(g) && 0 <= k < g.nodes.len(),
    ensures
        graph_of(config, all, ring, base_iri) matches Ok(g) && exists|i: int|
            0 <= i < all.len() && exported_as(#[trigger] all[i], g.nodes[k]),
{
    let c = coverage(config, all, ring);
    let g = graph_of(config, all, ring, base_iri)->Ok_0;
    lemma_concepts(c, all, all.len());
    let x = g.nodes[k];
    assert(has_file(c, all, all.len(), x));
    let i = choose|i: int| #[trigger] from_file(c, all, all.len(), x, i);
    assert(from_file(c, all, all.len(), x, i));
    lemma_exported_as(c, all, all[i], x.label);
    assert(exported_as(all[i], x));
}

proof fn lemma_concept_count(c: Coverage, all: Seq<FileModel>, n: nat)
    requires
        n <= all.len(),
        concepts(c, all, n) is Ok,
        forall|i: int| 0 <= i < all.len() ==> included(c, (#[trigger] all[i]).term),
    ensures
        concepts(c, all, n)->Ok_0.len() == n,
        forall|i: int|
            0 <= i < n ==> exported_as(all[i], #[trigger] concepts(c, all, n)->Ok_0[i]),
    decreases n,
{
    if n > 0 {
        lemma_concept_count(c, all, (n - 1) as nat);
        let before = concepts(c, all, (n - 1) as nat)->Ok_0;
        let list = concepts(c, all, n)->Ok_0;
        assert(included(c, all[n - 1].term));
        lemma_exported_as(c, all, all[n - 1], title(all[n - 1].content)->Some_0);
        assert forall|i: int| 0 <= i < n implies exported_as(all[i], #[trigger] list[i]) by {
            if i < n - 1 {
                assert(list[i] == before[i]);
            }
        }
    }
}

/// An export that is not restricted to a ring has one node for each file, in
/// the order of the files.
pub proof fn every_file_is_exported(
    config: ConfigModel,
    all: Seq<FileModel>,
    base_iri: Option<Seq<char>>,
)
    requires
        graph_of(config, all, None, base_iri) is Ok,
    ensures
        graph_of(config, all, None, base_iri)->Ok_0.nodes.len() == all.len(),
        forall|i: int|
            0 <= i < all.len() ==> exported_as(
                all[i],
                #[trigger] graph_of(config, all, None, base_iri)->Ok_0.nodes[i],
            ),
{
    let c = coverage(config, all, None);
    lemma_concept_count(c, all, all.len());
}

// ---------------------------------------------------------------------------
// Relations
// ---------------------------------------------------------------------------

/// The file of a term links another term with a relation.
pub open spec fn term_links(
    all: Seq<FileModel>,
    from: Seq<char>,
    to: Seq<char>,
    relation: Relation,
) -> bool {
    exists|i: int| #[trigger] file_links(all, i, from, to, relation)
}

/// In an export that is not restricted to a ring, a node is broader than
/// another exactly when the other links it as broader or it links the other as
/// narrower; narrower the other way round; and related exactly when it is
/// linked without a relation or as related. No node is linked to itself or to
/// a term without a node. Each list is in order and has no term twice.
pub proof fn links_are_exported_by_their_relation(
    config: ConfigModel,
    all: Seq<FileModel>,
    base_iri: Option<Seq<char>>,
    k: int,
    to: Seq<char>,
)
    requires
        graph_of(config, all, None, base_iri) matches Ok(g) && 0 <= k < all.len(),
        terms_of(all).no_duplicates(),
    ensures
        ({
            let x = graph_of(config, all, None, base_iri)->Ok_0.nodes[k];
            let from = all[k].term;
            let other = to != from && terms_of(all).contains(to);
            &&& x.broader.contains(to) <==> other && (term_links(all, from, to, Relation::Broader)
                || term_links(all, to, from, Relation::Narrower))
            &&& x.narrower.contains(to) <==> other && (term_links(
                all,
                from,
                to,
                Relation::Narrower,
            ) || term_links(all, to, from, Relation::Broader))
            &&& x.related.contains(to) <==> other && term_links(all, from, to, Relation::Related)
            &&& strictly_ascending(x.broader)
            &&& strictly_ascending(x.narrower)
            &&& strictly_ascending(x.related)
        }),
{
    let c = coverage(config, all, None);
    let g = graph_of(config, all, None, base_iri)->Ok_0;
    lemma_nodes_in_order(c, all, all.len(), k);
    let f = all[k];
    let x = g.nodes[k];
    let links = typed_links(f.content);
    lemma_linked(c, f.term, links, Relation::Broader, to);
    lemma_linked(c, f.term, links, Relation::Narrower, to);
    lemma_linked(c, f.term, links, Relation::Related, to);
    lemma_linking(c, all, f.term, Relation::Broader, to);
    lemma_linking(c, all, f.term, Relation::Narrower, to);
    let lb = linked(c, f.term, links, Relation::Broader);
    let ln = linked(c, f.term, links, Relation::Narrower);
    let ib = linking(c, all, f.term, Relation::Broader);
    let inn = linking(c, all, f.term, Relation::Narrower);
    lemma_in_sum(lb, inn, to);
    lemma_in_sum(ln, ib, to);
    lemma_sorted_set(lb + inn);
    lemma_sorted_set(ln + ib);
    lemma_sorted_set(linked(c, f.term, links, Relation::Related));
    lemma_own_links(all, k, to, Relation::Broader);
    lemma_own_links(all, k, to, Relation::Narrower);
    lemma_own_links(all, k, to, Relation::Related);
}

proof fn lemma_own_links(all: Seq<FileModel>, k: int, to: Seq<char>, relation: Relation)
    requires
        0 <= k < all.len(),
        terms_of(all).no_duplicates(),
    ensures
        term_links(all, all[k].term, to, relation) <==> links_with(
            typed_links(all[k].content),
            to,
            relation,
        ),
{
    let terms = terms_of(all);
    if links_with(typed_links(all[k].content), to, relation) {
        assert(file_links(all, k, all[k].term, to, relation));
    }
    if term_links(all, all[k].term, to, relation) {
        let i = choose|i: int| #[trigger] file_links(all, i, all[k].term, to, relation);
        assert(terms[i] == terms[k]);
    }
}

proof fn lemma_nodes_in_order(c: Coverage, all: Seq<FileModel>, n: nat, k: int)
    requires
        n <= all.len(),
        concepts(c, all, n) is Ok,
        forall|i: int| 0 <= i < all.len() ==> included(c, (#[trigger] all[i]).term),
        0 <= k < n,
    ensures
        concepts(c, all, n)->Ok_0.len() == n,
        title(all[k].content) is Some,
        concepts(c, all, n)->Ok_0[k] == concept_of(c, all, all[k], title(all[k].content)->Some_0),
    decreases n,
{
    lemma_concept_count(c, all, n);
    assert(included(c, all[n - 1].term));
    if k < n - 1 {
        lemma_concept_count(c, all, (n - 1) as nat);
        lemma_nodes_in_order(c, all, (n - 1) as nat, k);
    } else {
        lemma_concept_count(c, all, (n - 1) as nat);
    }
}

// ---------------------------------------------------------------------------
// Rings
// ---------------------------------------------------------------------------

/// A ring of the manifest as it is exported: with those of its terms, in
/// order, that have a node.
pub open spec fn ring_with_nodes(r: RingModel, all: Seq<FileModel>) -> RingModel {
    RingModel {
        level: r.level,
        name: r.name,
        description: r.description,
        terms: r.terms.filter(|t: Seq<char>| terms_of(all).contains(t)),
    }
}

proof fn lemma_common(list: Seq<Seq<char>>, other: Seq<Seq<char>>)
    ensures
        common(list, other) == list.filter(|t: Seq<char>| other.contains(t)),
        forall|t: Seq<char>| #[trigger]
            common(list, other).contains(t) <==> list.contains(t) && other.contains(t),
    decreases list.len(),
{
    reveal(Seq::filter);
    let kept = common(list, other);
    if list.len() > 0 {
        let front = list.drop_last();
        lemma_common(front, other);
        assert forall|t: Seq<char>| #[trigger]
            kept.contains(t) <==> list.contains(t) && other.contains(t) by {
            lemma_contains_last(list, t);
            assert(common(front, other).contains(t) <==> front.contains(t) && other.contains(t));
            if other.contains(list.last()) {
                lemma_contains_last(kept, t);
                assert(kept.drop_last() =~= common(front, other));
            }
        }
    }
}

/// A ring of a list is exported as `x`: it is of the level asked for, if one
/// is.
pub open spec fn ring_exported_as(
    rings: Seq<RingModel>,
    ring: Option<u32>,
    all: Seq<FileModel>,
    x: RingModel,
    i: int,
) -> bool {
    &&& 0 <= i < rings.len()
    &&& (ring matches Some(level) ==> rings[i].level == level)
    &&& x == ring_with_nodes(rings[i], all)
}

proof fn lemma_export_rings(
    rings: Seq<RingModel>,
    ring: Option<u32>,
    all: Seq<FileModel>,
    x: RingModel,
)
    ensures
        export_rings(rings, ring, terms_of(all)).contains(x) <==> exists|i: int| #[trigger]
            ring_exported_as(rings, ring, all, x, i),
        ring is None ==> export_rings(rings, ring, terms_of(all)).len() == rings.len(),
    decreases rings.len(),
{
    let list = export_rings(rings, ring, terms_of(all));
    if rings.len() > 0 {
        let front = rings.drop_last();
        let last = rings.last();
        lemma_export_rings(front, ring, all, x);
        lemma_common(last.terms, terms_of(all));
        let kept = !(ring is Some && ring->Some_0 != last.level);
        if kept {
            lemma_contains_last(list, x);
            assert(list.drop_last() =~= export_rings(front, ring, terms_of(all)));
            assert(list.last() == ring_with_nodes(last, all));
        }
        if exists|i: int| #[trigger] ring_exported_as(front, ring, all, x, i) {
            let i = choose|i: int| #[trigger] ring_exported_as(front, ring, all, x, i);
            assert(ring_exported_as(rings, ring, all, x, i));
        }
        if kept && x == ring_with_nodes(last, all) {
            assert(ring_exported_as(rings, ring, all, x, rings.len() - 1));
        }
        if exists|i: int| #[trigger] ring_exported_as(rings, ring, all, x, i) {
            let i = choose|i: int| #[trigger] ring_exported_as(rings, ring, all, x, i);
            if i < front.len() {
                assert(ring_exported_as(front, ring, all, x, i));
            }
        }
    }
}

proof fn lemma_rings_of_coverage(
    config: ConfigModel,
    all: Seq<FileModel>,
    ring: Option<u32>,
    x: RingModel,
)
    ensures
        coverage(config, all, ring).rings.contains(x) <==> exists|i: int| #[trigger]
            ring_exported_as(config.rings, ring, all, x, i),
{
    let sorted = by_level(config.rings);
    rings_stand_by_level(config.rings);
    lemma_export_rings(sorted, ring, all, x);
    if exists|i: int| #[trigger] ring_exported_as(sorted, ring, all, x, i) {
        let i = choose|i: int| #[trigger] ring_exported_as(sorted, ring, all, x, i);
        assert(sorted.contains(sorted[i]));
        let j = choose|j: int| 0 <= j < config.rings.len() && config.rings[j] == sorted[i];
        assert(ring_exported_as(config.rings, ring, all, x, j));
    }
    if exists|i: int| #[trigger] ring_exported_as(config.rings, ring, all, x, i) {
        let i = choose|i: int| #[trigger] ring_exported_as(config.rings, ring, all, x, i);
        assert(config.rings.contains(config.rings[i]));
        assert(sorted.contains(config.rings[i]));
        let j = choose|j: int| 0 <= j < sorted.len() && sorted[j] == config.rings[i];
        assert(ring_exported_as(sorted, ring, all, x, j));
    }
}

/// The rings of an export are those of the manifest, or of them those of the
/// level that it is restricted to, each with its own name and description and
/// with those of its terms, in order, that have a node.
pub proof fn the_rings_of_the_manifest_are_exported(
    config: ConfigModel,
    all: Seq<FileModel>,
    ring: Option<u32>,
    base_iri: Option<Seq<char>>,
    x: RingModel,
)
    requires
        graph_of(config, all, ring, base_iri) is Ok,
    ensures
        graph_of(config, all, ring, base_iri)->Ok_0.rings.contains(x) <==> exists|i: int|
            0 <= i < config.rings.len() && (ring matches Some(level) ==> (
            #[trigger] config.rings[i]).level == level) && x == ring_with_nodes(
                config.rings[i],
                all,
            ),
{
    lemma_rings_of_coverage(config, all, ring, x);
    if exists|i: int| #[trigger] ring_exported_as(config.rings, ring, all, x, i) {
        let i = choose|i: int| #[trigger] ring_exported_as(config.rings, ring, all, x, i);
        assert(config.rings[i] == config.rings[i]);
    }
    if exists|i: int|
        0 <= i < config.rings.len() && (ring matches Some(level) ==> (
        #[trigger] config.rings[i]).level == level) && x == ring_with_nodes(config.rings[i], all) {
        let i = choose|i: int|
            0 <= i < config.rings.len() && (ring matches Some(level) ==> (
            #[trigger] config.rings[i]).level == level) && x == ring_with_nodes(
                config.rings[i],
                all,
            );
        assert(ring_exported_as(config.rings, ring, all, x, i));
    }
}

/// A ring of a list declares a term.
pub open spec fn declares_term(rings: Seq<RingModel>, i: int, term: Seq<char>) -> bool {
    0 <= i < rings.len() && rings[i].terms.contains(term)
}

proof fn lemma_ring_of(rings: Seq<RingModel>, term: Seq<char>)
    ensures
        match ring_of(rings, term) {
            Some(level) => exists|i: int|
                {
                    &&& #[trigger] declares_term(rings, i, term)
                    &&& rings[i].level == level
                    &&& forall|j: int| #[trigger] declares_term(rings, j, term) ==> i <= j
                },
            None => forall|j: int| !(#[trigger] declares_term(rings, j, term)),
        },
    decreases rings.len(),
{
    if rings.len() > 0 {
        let front = rings.drop_last();
        lemma_ring_of(front, term);
        match ring_of(front, term) {
            Some(level) => {
                let i = choose|i: int|
                    {
                        &&& #[trigger] declares_term(front, i, term)
                        &&& front[i].level == level
                        &&& forall|j: int| #[trigger] declares_term(front, j, term) ==> i <= j
                    };
                assert(declares_term(rings, i, term));
                assert forall|j: int| #[trigger] declares_term(rings, j, term) implies i <= j by {
                    if j < front.len() {
                        assert(declares_term(front, j, term));
                    }
                }
            },
            None => {
                assert forall|j: int| #[trigger]
                    declares_term(rings, j, term) implies j == rings.len() - 1 by {
                    if j < front.len() {
                        assert(declares_term(front, j, term));
                    }
                }
                if rings.last().terms.contains(term) {
                    assert(declares_term(rings, rings.len() - 1, term));
                }
            },
        }
    }
}

/// The ring of an exported node: the lowest of the levels, among those
/// exported, whose rings declare its term; none where no ring does.
pub proof fn a_node_stands_in_its_lowest_ring(
    config: ConfigModel,
    all: Seq<FileModel>,
    ring: Option<u32>,
    base_iri: Option<Seq<char>>,
    k: int,
)
    requires
        graph_of(config, all, ring, base_iri) matches Ok(g) && 0 <= k < g.nodes.len(),
    ensures
        ({
            let x = graph_of(config, all, ring, base_iri)->Ok_0.nodes[k];
            match x.ring {
                Some(level) => {
                    &&& exists|i: int| #[trigger]
                        declares_term(config.rings, i, x.term) && config.rings[i].level == level
                    &&& ring is None ==> forall|i: int| #[trigger]
                        declares_term(config.rings, i, x.term) ==> level <= config.rings[i].level
                    &&& ring matches Some(only) ==> level == only
                },
                None => ring is None && forall|i: int|
                    !(#[trigger] declares_term(config.rings, i, x.term)),
            }
        }),
{
    let c = coverage(config, all, ring);
    let g = graph_of(config, all, ring, base_iri)->Ok_0;
    lemma_concepts(c, all, all.len());
    let x = g.nodes[k];
    assert(has_file(c, all, all.len(), x));
    let f = choose|i: int| #[trigger] from_file(c, all, all.len(), x, i);
    assert(from_file(c, all, all.len(), x, f));
    assert(terms_of(all)[f] == x.term);
    lemma_ring_of(c.rings, x.term);
    rings_stand_by_level(config.rings);
    lemma_export_ordered(by_level(config.rings), ring, terms_of(all));
    assert forall|i: int| #[trigger] declares_term(config.rings, i, x.term) && (ring matches Some(
        only,
    ) ==> config.rings[i].level == only) implies exists|j: int|
        #[trigger] declares_term(c.rings, j, x.term) && c.rings[j].level
            == config.rings[i].level by {
        let r = ring_with_nodes(config.rings[i], all);
        lemma_rings_of_coverage(config, all, ring, r);
        assert(ring_exported_as(config.rings, ring, all, r, i));
        let j = choose|j: int| 0 <= j < c.rings.len() && c.rings[j] == r;
        lemma_common(config.rings[i].terms, terms_of(all));
        assert(common(config.rings[i].terms, terms_of(all)).contains(x.term));
        assert(declares_term(c.rings, j, x.term));
    }
    if let Some(level) = x.ring {
        let i = choose|i: int|
            {
                &&& #[trigger] declares_term(c.rings, i, x.term)
                &&& c.rings[i].level == level
                &&& forall|j: int| #[trigger] declares_term(c.rings, j, x.term) ==> i <= j
            };
        lemma_rings_of_coverage(config, all, ring, c.rings[i]);
        assert(c.rings.contains(c.rings[i]));
        let o = choose|o: int| #[trigger]
            ring_exported_as(config.rings, ring, all, c.rings[i], o);
        lemma_common(config.rings[o].terms, terms_of(all));
        assert(common(config.rings[o].terms, terms_of(all)).contains(x.term));
        assert(declares_term(config.rings, o, x.term));
        if ring is None {
            assert forall|m: int| #[trigger] declares_term(config.rings, m, x.term) implies level
                <= config.rings[m].level by {
                let j = choose|j: int| #[trigger]
                    declares_term(c.rings, j, x.term) && c.rings[j].level == config.rings[m].level;
                assert(i <= j);
            }
        }
    } else {
        assert(ring is None);
        assert forall|i: int| !(#[trigger] declares_term(config.rings, i, x.term)) by {
            if declares_term(config.rings, i, x.term) {
                let j = choose|j: int| #[trigger]
                    declares_term(c.rings, j, x.term) && c.rings[j].level == config.rings[i].level;
                assert(false);
            }
        }
    }
}

proof fn lemma_export_ordered(
    rings: Seq<RingModel>,
    ring: Option<u32>,
    existing: Seq<Seq<char>>,
)
    requires
        level_ordered(rings),
    ensures
        level_ordered(export_rings(rings, ring, existing)),
        forall|i: int|
            0 <= i < export_rings(rings, ring, existing).len() ==> exists|j: int|
                0 <= j < rings.len() && (#[trigger] rings[j]).level == (#[trigger] export_rings(
                    rings,
                    ring,
                    existing,
                )[i]).level,
    decreases rings.len(),
{
    if rings.len() > 0 {
        let front = rings.drop_last();
        let last = rings.last();
        assert(level_ordered(front));
        lemma_export_ordered(front, ring, existing);
        let before = export_rings(front, ring, existing);
        let list = export_rings(rings, ring, existing);
        assert forall|i: int| 0 <= i < list.len() implies exists|j: int|
            0 <= j < rings.len() && (#[trigger] rings[j]).level == (#[trigger] list[i]).level by {
            if i < before.len() {
                assert(list[i] == before[i]);
                let j = choose|j: int|
                    0 <= j < front.len() && (#[trigger] front[j]).level == before[i].level;
                assert(rings[j] == front[j]);
            } else {
                assert(rings[rings.len() - 1].level == list[i].level);
            }
        }
        assert forall|i: int, j: int| 0 <= i <= j < list.len() implies (
        #[trigger] list[i]).level <= (#[trigger] list[j]).level by {
            if j < before.len() {
                assert(list[i] == before[i] && list[j] == before[j]);
            } else if i < before.len() {
                assert(list[i] == before[i]);
                let m = choose|m: int|
                    0 <= m < front.len() && (#[trigger] front[m]).level == before[i].level;
                assert(rings[m].level <= rings[rings.len() - 1].level);
            }
        }
    }
}

// ---------------------------------------------------------------------------
// The scheme, and what stops an export
// ---------------------------------------------------------------------------

/// A text of lower-case letters, digits, hyphens and underscores.
pub open spec fn is_segment(s: Seq<char>) -> bool {
    s.len() > 0 && forall|i: int|
        0 <= i < s.len() ==> {
            let c = #[trigger] s[i];
            ('a' <= c && c <= 'z') || ('0' <= c && c <= '9') || c == '-' || c == '_'
        }
}

/// The base IRI asked for: the one given, else that of the manifest, else
/// the default.
pub open spec fn asked_base(config: ConfigModel, given: Option<Seq<char>>) -> Seq<char> {
    if given is Some {
        given->Some_0
    } else if config.meta.base_iri is Some {
        config.meta.base_iri->Some_0
    } else {
        "https://existence-lang.github.io/ontology/"@
    }
}

/// The vocabulary IRI asked for: that of the manifest, else the default.
pub open spec fn asked_vocab(config: ConfigModel) -> Seq<char> {
    if config.meta.vocab_iri is Some {
        config.meta.vocab_iri->Some_0
    } else {
        "https://existence-lang.github.io/ontology/vocab#"@
    }
}

/// The scheme of an export has the name and the description of the manifest;
/// its base IRI is the one asked for without white space around it, closed
/// with a slash unless it ends in one or in `#`; its vocabulary IRI is the one
/// asked for.
pub proof fn the_scheme_is_the_manifests(
    config: ConfigModel,
    all: Seq<FileModel>,
    ring: Option<u32>,
    given: Option<Seq<char>>,
)
    requires
        graph_of(config, all, ring, given) is Ok,
    ensures
        ({
            let g = graph_of(config, all, ring, given)->Ok_0;
            let base = trim(asked_base(config, given));
            &&& g.scheme_name == config.meta.name
            &&& g.scheme_description == config.meta.description
            &&& g.vocab_iri == asked_vocab(config)
            &&& (ends(base, "/"@) || ends(base, "#"@)) ==> g.base_iri == base
            &&& !ends(base, "/"@) && !ends(base, "#"@) ==> g.base_iri == base + "/"@
        }),
{
}

proof fn lemma_concepts_ok(c: Coverage, all: Seq<FileModel>, n: nat)
    requires
        n <= all.len(),
    ensures
        concepts(c, all, n) is Ok <==> forall|i: int|
            0 <= i < n && included(c, (#[trigger] all[i]).term) ==> is_segment(all[i].term)
                && title(all[i].content) is Some,
    decreases n,
{
    if n > 0 {
        lemma_concepts_ok(c, all, (n - 1) as nat);
        lemma_segment(all[n - 1].term);
        if concepts(c, all, n) is Ok {
            assert forall|i: int| 0 <= i < n && included(
                c,
                (#[trigger] all[i]).term,
            ) implies is_segment(all[i].term) && title(all[i].content) is Some by {
                if i < n - 1 {
                    assert(concepts(c, all, (n - 1) as nat) is Ok);
                }
            }
        }
    }
}

proof fn lemma_segment(s: Seq<char>)
    ensures
        safe_segment(s) <==> is_segment(s),
{
    if safe_segment(s) {
        assert forall|i: int| 0 <= i < s.len() implies ({
            let c = #[trigger] s[i];
            ('a' <= c && c <= 'z') || ('0' <= c && c <= '9') || c == '-' || c == '_'
        }) by {
            assert(crate::commands::export::segment_char(s[i]));
        }
    }
    if is_segment(s) {
        assert forall|i: int| 0 <= i < s.len() implies crate::commands::export::segment_char(
            #[trigger] s[i],
        ) by {}
    }
}

proof fn lemma_ring_at(rings: Seq<RingModel>, level: u32)
    ensures
        ring_at(rings, level) is Some <==> exists|i: int|
            0 <= i < rings.len() && (#[trigger] rings[i]).level == level,
    decreases rings.len(),
{
    if rings.len() > 0 && rings[0].level != level {
        let rest = rings.skip(1);
        lemma_ring_at(rest, level);
        if exists|i: int| 0 <= i < rest.len() && (#[trigger] rest[i]).level == level {
            let i = choose|i: int| 0 <= i < rest.len() && (#[trigger] rest[i]).level == level;
            assert(rings[i + 1] == rest[i]);
        }
        if exists|i: int| 0 <= i < rings.len() && (#[trigger] rings[i]).level == level {
            let i = choose|i: int| 0 <= i < rings.len() && (#[trigger] rings[i]).level == level;
            assert(rest[i - 1] == rings[i]);
        }
    }
}

/// An ontology is exported exactly when its base IRI and its vocabulary IRI
/// can stand between angle brackets, the manifest has the ring asked for, and
/// every node in that ring has a term that can stand in an IRI and a title.
pub proof fn an_export_fails_only_for_a_cause(
    config: ConfigModel,
    all: Seq<FileModel>,
    ring: Option<u32>,
    given: Option<Seq<char>>,
)
    ensures
        graph_of(config, all, ring, given) is Ok <==> {
            &&& stands_in_brackets(normal_base(asked_base(config, given)))
            &&& stands_in_brackets(asked_vocab(config))
            &&& (ring matches Some(level) ==> exists|i: int|
                0 <= i < config.rings.len() && (#[trigger] config.rings[i]).level == level)
            &&& forall|i: int|
                0 <= i < all.len() && included(
                    coverage(config, all, ring),
                    (#[trigger] all[i]).term,
                ) ==> is_segment(all[i].term) && title(all[i].content) is Some
        },
        !stands_in_brackets(normal_base(asked_base(config, given))) ==> graph_of(
            config,
            all,
            ring,
            given,
        ) == Err::<GraphModel, Seq<char>>(
            "base IRI"@ + " '"@ + normal_base(asked_base(config, given))
                + "' contains characters not allowed in an IRI"@,
        ),
{
    an_iri_stands_in_brackets(normal_base(asked_base(config, given)));
    an_iri_stands_in_brackets(asked_vocab(config));
    lemma_concepts_ok(coverage(config, all, ring), all, all.len());
    if let Some(level) = ring {
        lemma_ring_at(config.rings, level);
    }
}

/// An export restricted to a ring has a node for exactly the terms that a
/// ring of that level declares and that have a file.
pub proof fn a_ring_export_holds_what_the_ring_declares(
    config: ConfigModel,
    all: Seq<FileModel>,
    level: u32,
    base_iri: Option<Seq<char>>,
    term: Seq<char>,
)
    requires
        graph_of(config, all, Some(level), base_iri) is Ok,
    ensures
        has_concept(graph_of(config, all, Some(level), base_iri)->Ok_0.nodes, term)
            <==> terms_of(all).contains(term) && exists|i: int| #[trigger]
            declares_term(config.rings, i, term) && config.rings[i].level == level,
{
    let c = coverage(config, all, Some(level));
    let g = graph_of(config, all, Some(level), base_iri)->Ok_0;
    lemma_concepts(c, all, all.len());
    if has_concept(g.nodes, term) {
        let k = choose|k: int| 0 <= k < g.nodes.len() && (#[trigger] g.nodes[k]).term == term;
        a_node_stands_in_its_lowest_ring(config, all, Some(level), base_iri, k);
        let x = g.nodes[k];
        assert(has_file(c, all, all.len(), x));
        let f = choose|i: int| #[trigger] from_file(c, all, all.len(), x, i);
        assert(terms_of(all)[f] == term);
    }
    if terms_of(all).contains(term) && exists|i: int| #[trigger]
        declares_term(config.rings, i, term) && config.rings[i].level == level {
        let f = choose|f: int| 0 <= f < terms_of(all).len() && terms_of(all)[f] == term;
        let i = choose|i: int| #[trigger]
            declares_term(config.rings, i, term) && config.rings[i].level == level;
        let r = ring_with_nodes(config.rings[i], all);
        lemma_rings_of_coverage(config, all, Some(level), r);
        assert(ring_exported_as(config.rings, Some(level), all, r, i));
        let j = choose|j: int| 0 <= j < c.rings.len() && c.rings[j] == r;
        lemma_common(config.rings[i].terms, terms_of(all));
        assert(common(config.rings[i].terms, terms_of(all)).contains(term));
        assert(declares_term(c.rings, j, term));
        lemma_ring_of(c.rings, term);
        let l = ring_of(c.rings, term)->Some_0;
        let m = choose|m: int|
            {
                &&& #[trigger] declares_term(c.rings, m, term)
                &&& c.rings[m].level == l
                &&& forall|j: int| #[trigger] declares_term(c.rings, j, term) ==> m <= j
            };
        lemma_rings_of_coverage(config, all, Some(level), c.rings[m]);
        assert(c.rings.contains(c.rings[m]));
        assert(included(c, all[f].term));
    }
}

/// The names of the formats: Turtle under two, JSON-LD under two, and any
/// other is refused by name.
pub proof fn formats_go_by_their_names(g: GraphModel, format: Seq<char>)
    ensures
        in_format(g, "turtle"@) == Ok::<RenderedModel, Seq<char>>(
            RenderedModel::Turtle(turtle(g)),
        ),
        in_format(g, "ttl"@) == Ok::<RenderedModel, Seq<char>>(RenderedModel::Turtle(turtle(g))),
        in_format(g, "jsonld"@) == Ok::<RenderedModel, Seq<char>>(
            RenderedModel::JsonLd(document_json(g)),
        ),
        in_format(g, "json-ld"@) == Ok::<RenderedModel, Seq<char>>(
            RenderedModel::JsonLd(document_json(g)),
        ),
        format != "turtle"@ && format != "ttl"@ && format != "jsonld"@ && format != "json-ld"@
            ==> in_format(g, format) == Err::<RenderedModel, Seq<char>>(
            "Unknown export format '"@ + format + "' (expected \"turtle\" or \"jsonld\")"@,
        ),
{
    reveal_strlit("turtle");
    reveal_strlit("ttl");
    reveal_strlit("jsonld");
    reveal_strlit("json-ld");
    assert("turtle"@[0] != "jsonld"@[0]);
    assert("ttl"@.len() == 3 && "turtle"@.len() == 6 && "jsonld"@.len() == 6 && "json-ld"@.len()
        == 7);
}

}
