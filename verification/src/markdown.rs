//! Ontology nodes as markdown: title, sections, links and lay definition.

use vstd::prelude::*;
use vstd::string::*;

use crate::order::{sort_set, sort_texts, sorted, sorted_set};
use crate::pattern::{
    find_matches, group, group_present, group_text, has_group, hits, regex_matches, rewrite,
    rewrite_hits, Found, Hit, Matches, ANY_LINK, EXTERNAL_LINK, NODE_LINK,
};
use crate::text::{
    ascii_lower_text, char_texts, chars_of, contains, ends, ends_with, has, head, join, joined,
    lemma_push_text, lemma_take_next, lines, lines_of, lower_chars, opt_text, removed, replace,
    replaced, same, starts, starts_with, strip_prefixes, stripped_prefixes, text_of, texts, trim,
    trimmed, without,
};

verus! {

/// A node file: its term (the slug the file is named after) and its text.
#[derive(Debug, Clone, PartialEq, Eq)]
pub struct NodeFile {
    pub term: String,
    pub content: String,
}

/// What a node file holds.
pub struct FileModel {
    pub term: Seq<char>,
    pub content: Seq<char>,
}

impl View for NodeFile {
    type V = FileModel;

    open spec fn view(&self) -> FileModel {
        FileModel { term: self.term@, content: self.content@ }
    }
}

/// What a list of node files holds.
pub open spec fn files(nodes: Seq<NodeFile>) -> Seq<FileModel> {
    Seq::new(nodes.len(), |i: int| nodes[i]@)
}

/// The terms of a list of node files.
pub open spec fn terms_of(nodes: Seq<FileModel>) -> Seq<Seq<char>> {
    Seq::new(nodes.len(), |i: int| nodes[i].term)
}

/// A parsed ontology node.
#[derive(Debug)]
pub struct Node {
    pub title: String,
    pub ontology: Option<String>,
    pub axiology: Option<String>,
    pub ethics: Option<String>,
    pub epistemology: Option<String>,
    /// The whole text.
    pub raw: String,
}

/// What a parsed node holds.
pub struct NodeModel {
    pub title: Seq<char>,
    pub ontology: Option<Seq<char>>,
    pub axiology: Option<Seq<char>>,
    pub ethics: Option<Seq<char>>,
    pub epistemology: Option<Seq<char>>,
    pub raw: Seq<char>,
}

impl View for Node {
    type V = NodeModel;

    open spec fn view(&self) -> NodeModel {
        NodeModel {
            title: self.title@,
            ontology: opt_text(self.ontology),
            axiology: opt_text(self.axiology),
            ethics: opt_text(self.ethics),
            epistemology: opt_text(self.epistemology),
            raw: self.raw@,
        }
    }
}

/// A line that is a `# Title`.
pub open spec fn is_title(line: Seq<char>) -> bool {
    starts(trim(line), "# "@) && !starts(trim(line), "## "@)
}

/// A line that is a `## Section` heading.
pub open spec fn is_heading(line: Seq<char>) -> bool {
    starts(trim(line), "## "@) && !starts(trim(line), "### "@)
}

/// The title of a text given by its lines: that of the first title line.
pub open spec fn title_of(ls: Seq<Seq<char>>) -> Option<Seq<char>>
    decreases ls.len(),
{
    if ls.len() == 0 {
        None
    } else if is_title(ls[0]) {
        Some(strip_prefixes(trim(ls[0]), "# "@))
    } else {
        title_of(ls.skip(1))
    }
}

/// The title of a node's text.
pub open spec fn title(content: Seq<char>) -> Option<Seq<char>> {
    title_of(lines(content))
}

/// A section heading that names `name`, plainly or inside a link.
pub open spec fn names_section(line: Seq<char>, name: Seq<char>) -> bool {
    is_heading(line) && has(strip_prefixes(trim(line), "## "@), name)
}

/// Where the last heading that names a section stands.
pub open spec fn last_heading(ls: Seq<Seq<char>>, name: Seq<char>) -> Option<int>
    decreases ls.len(),
{
    if ls.len() == 0 {
        None
    } else if names_section(ls.last(), name) {
        Some(ls.len() - 1)
    } else {
        last_heading(ls.drop_last(), name)
    }
}

/// Where the first section heading from `from` on stands; the number of
/// lines when there is none.
pub open spec fn next_heading(ls: Seq<Seq<char>>, from: int) -> int
    decreases ls.len() - from,
{
    if from < 0 || from >= ls.len() {
        ls.len() as int
    } else if is_heading(ls[from]) {
        from
    } else {
        next_heading(ls, from + 1)
    }
}

/// The text of a section: the lines under its heading up to the next
/// section heading, trimmed. `None` when there is no such heading, or no
/// text under it.
pub open spec fn section(content: Seq<char>, name: Seq<char>) -> Option<Seq<char>> {
    let ls = lines(content);
    match last_heading(ls, name) {
        None => None,
        Some(i) => {
            let text = trim(join(ls.subrange(i + 1, next_heading(ls, i + 1)), "\n"@));
            if text.len() == 0 {
                None
            } else {
                Some(text)
            }
        },
    }
}

/// The node that a text with a title is.
pub open spec fn node_of(content: Seq<char>, title: Seq<char>) -> NodeModel {
    NodeModel {
        title,
        ontology: section(content, "Ontology"@),
        axiology: section(content, "Axiology"@),
        ethics: section(content, "Ethics"@),
        epistemology: section(content, "Epistemology"@),
        raw: content,
    }
}

/// Whether a line is a `# Title`.
pub fn title_line(line: &[char]) -> (r: bool)
    ensures
        r == is_title(line@),
{
    let t = trimmed(line);
    starts_with(t, "# ") && !starts_with(t, "## ")
}

/// Whether a line is a `## Section` heading.
pub fn heading_line(line: &[char]) -> (r: bool)
    ensures
        r == is_heading(line@),
{
    let t = trimmed(line);
    starts_with(t, "## ") && !starts_with(t, "### ")
}

/// Extract the title from the first `# Title` line.
pub fn extract_title(content: &str) -> (r: Option<String>)
    ensures
        opt_text(r) == title(content@),
{
    let cs = chars_of(content);
    let ls = lines_of(cs.as_slice());
    let ghost all = char_texts(ls@);
    assert(all.skip(0) == all);
    for i in 0..ls.len()
        invariant
            all == char_texts(ls@),
            all == lines(content@),
            title_of(all) == title_of(all.skip(i as int)),
    {
        let line = ls[i].as_slice();
        assert(all.skip(i as int)[0] == line@);
        assert(all.skip(i as int).skip(1) == all.skip(i + 1));
        if title_line(line) {
            proof {
                reveal_strlit("# ");
            }
            return Some(text_of(stripped_prefixes(trimmed(line), "# ")));
        }
    }
    assert(all.skip(ls@.len() as int) =~= Seq::<Seq<char>>::empty());
    None
}

/// Extract the content under a `## [Section]` or `## Section` heading, up to
/// the next `## ` heading.
pub fn extract_section(content: &str, section_name: &str) -> (r: Option<String>)
    ensures
        opt_text(r) == section(content@, section_name@),
{
    let cs = chars_of(content);
    let ls = lines_of(cs.as_slice());
    let ghost all = char_texts(ls@);
    let total = ls.len();
    let mut n: usize = total;
    assert(all.take(n as int) == all);
    proof {
        reveal_strlit("## ");
    }
    while n > 0
        invariant
            all == char_texts(ls@),
            all == lines(content@),
            total == ls@.len(),
            n <= total,
            "## "@.len() > 0,
            last_heading(all, section_name@) == last_heading(all.take(n as int), section_name@),
        decreases n,
    {
        let line = ls[n - 1].as_slice();
        assert(all.take(n as int).last() == line@);
        assert(all.take(n as int).drop_last() == all.take(n - 1));
        if heading_line(line) && contains(stripped_prefixes(trimmed(line), "## "), section_name) {
            let mut end: usize = n;
            while end < total && !heading_line(ls[end].as_slice())
                invariant
                    all == char_texts(ls@),
                    total == ls@.len(),
                    n <= end <= total,
                    next_heading(all, n as int) == next_heading(all, end as int),
                decreases total - end,
            {
                assert(all[end as int] == ls@[end as int]@);
                end = end + 1;
            }
            assert(end < total ==> all[end as int] == ls@[end as int]@);
            let mut part: Vec<Vec<char>> = Vec::new();
            for k in n..end
                invariant
                    all == char_texts(ls@),
                    total == ls@.len(),
                    n <= end <= total,
                    char_texts(part@) == all.subrange(n as int, k as int),
            {
                let ghost before = part@;
                part.push(ls[k].clone());
                assert(char_texts(part@) =~= char_texts(before).push(ls@[k as int]@));
                assert(all.subrange(n as int, k + 1) =~= all.subrange(n as int, k as int).push(
                    all[k as int],
                ));
            }
            let body = joined(&part, "\n");
            let text = trimmed(body.as_slice());
            if text.len() == 0 {
                return None;
            }
            return Some(text_of(text));
        }
        n = n - 1;
    }
    None
}

impl Node {
    /// Parse a markdown text into a node.
    pub fn parse(content: &str) -> (r: Result<Self, String>)
        ensures
            r is Ok <==> title(content@) is Some,
            r matches Ok(n) ==> n@ == node_of(content@, title(content@)->Some_0),
            r matches Err(e) ==> e@ == "No title (# heading) found"@,
    {
        match extract_title(content) {
            None => Err("No title (# heading) found".to_string()),
            Some(title) => Ok(
                Node {
                    title,
                    ontology: extract_section(content, "Ontology"),
                    axiology: extract_section(content, "Axiology"),
                    ethics: extract_section(content, "Ethics"),
                    epistemology: extract_section(content, "Epistemology"),
                    raw: content.to_string(),
                },
            ),
        }
    }
}

/// The SKOS relation a node link asserts. An untitled link is `Related`.
#[derive(Debug, Clone, Copy, PartialEq, Eq, Structural)]
pub enum Relation {
    Broader,
    Narrower,
    Related,
}

/// The relation that a link title names; white space around it and the case
/// of ASCII letters do not matter.
pub open spec fn relation_of(title: Seq<char>) -> Option<Relation> {
    let word = ascii_lower_text(trim(title));
    if word == "broader"@ {
        Some(Relation::Broader)
    } else if word == "narrower"@ {
        Some(Relation::Narrower)
    } else if word == "related"@ {
        Some(Relation::Related)
    } else {
        None
    }
}

/// The word of a relation.
pub open spec fn relation_word(relation: Relation) -> Seq<char> {
    match relation {
        Relation::Broader => "broader"@,
        Relation::Narrower => "narrower"@,
        Relation::Related => "related"@,
    }
}

impl Relation {
    /// Parse a link title; `None` for anything outside the recognized vocabulary.
    pub fn parse(title: &str) -> (r: Option<Relation>)
        ensures
            r == relation_of(title@),
    {
        let cs = chars_of(title);
        let word = text_of(lower_chars(trimmed(cs.as_slice())).as_slice());
        if same(word.as_str(), "broader") {
            Some(Relation::Broader)
        } else if same(word.as_str(), "narrower") {
            Some(Relation::Narrower)
        } else if same(word.as_str(), "related") {
            Some(Relation::Related)
        } else {
            None
        }
    }

    /// The word of the relation.
    pub fn as_str(self) -> (r: &'static str)
        ensures
            r@ == relation_word(self),
    {
        match self {
            Relation::Broader => "broader",
            Relation::Narrower => "narrower",
            Relation::Related => "related",
        }
    }
}

/// The word of a relation, as a link title, names that relation.
pub proof fn relation_words_parse_back(relation: Relation)
    ensures
        relation_of(relation_word(relation)) == Some(relation),
{
    reveal_strlit("broader");
    reveal_strlit("narrower");
    reveal_strlit("related");
    let w = relation_word(relation);
    assert(!crate::text::is_white_space(w[0]));
    assert(!crate::text::is_white_space(w.last()));
    assert(trim(w) == w);
    assert(ascii_lower_text(w) =~= w);
    assert("broader"@[0] != "narrower"@[0]);
    assert("related"@[0] != "narrower"@[0]);
    assert("related"@[0] != "broader"@[0]);
}

/// One `[text](./term.md "relation")` link with its relation resolved.
#[derive(Debug, Clone, PartialEq, Eq)]
pub struct TypedLink {
    pub term: String,
    pub relation: Relation,
    /// The raw title when it was not a recognized relation (the link then
    /// counts as `Related`, and lint warns).
    pub unknown_title: Option<String>,
}

/// What a link says.
pub struct LinkModel {
    pub term: Seq<char>,
    pub relation: Relation,
    pub unknown_title: Option<Seq<char>>,
}

impl View for TypedLink {
    type V = LinkModel;

    open spec fn view(&self) -> LinkModel {
        LinkModel {
            term: self.term@,
            relation: self.relation,
            unknown_title: opt_text(self.unknown_title),
        }
    }
}

/// What a list of links says.
pub open spec fn links_of(links: Seq<TypedLink>) -> Seq<LinkModel> {
    Seq::new(links.len(), |i: int| links[i]@)
}

/// The link to `term` with an optional title.
pub open spec fn link_to(term: Seq<char>, title: Option<Seq<char>>) -> LinkModel {
    match title {
        None => LinkModel { term, relation: Relation::Related, unknown_title: None },
        Some(t) => match relation_of(t) {
            Some(relation) => LinkModel { term, relation, unknown_title: None },
            None => LinkModel { term, relation: Relation::Related, unknown_title: Some(t) },
        },
    }
}

/// The link that a match of `NODE_LINK` is.
pub open spec fn link_of_hit(h: Hit) -> LinkModel {
    link_to(
        group(h, 2),
        if has_group(h, 3) {
            Some(group(h, 3))
        } else {
            None
        },
    )
}

/// The links that the matches of `NODE_LINK` are, in order.
pub open spec fn links_of_hits(hits: Seq<Hit>) -> Seq<LinkModel> {
    Seq::new(hits.len(), |i: int| link_of_hit(hits[i]))
}

/// All node links of a text, in document order.
pub open spec fn typed_links(content: Seq<char>) -> Seq<LinkModel> {
    links_of_hits(regex_matches(NODE_LINK@, content).0)
}

/// The terms that links point at.
pub open spec fn link_terms(links: Seq<LinkModel>) -> Seq<Seq<char>> {
    Seq::new(links.len(), |i: int| links[i].term)
}

/// The link to `term` with an optional title.
pub fn typed_link(term: String, title: Option<String>) -> (r: TypedLink)
    ensures
        r@ == link_to(term@, opt_text(title)),
{
    match title {
        None => TypedLink { term, relation: Relation::Related, unknown_title: None },
        Some(t) => match Relation::parse(t.as_str()) {
            Some(relation) => TypedLink { term, relation, unknown_title: None },
            None => TypedLink { term, relation: Relation::Related, unknown_title: Some(t) },
        },
    }
}

/// The links that the matches of `NODE_LINK` in a text are, in order.
pub fn links_from_matches(found: &Vec<Found>) -> (r: Vec<TypedLink>)
    ensures
        links_of(r@) == links_of_hits(hits(found@)),
{
    let mut r: Vec<TypedLink> = Vec::new();
    for i in 0..found.len()
        invariant
            links_of(r@) == links_of_hits(hits(found@)).take(i as int),
    {
        let ghost before = r@;
        let f = &found[i];
        let title = if group_present(f, 3) {
            Some(group_text(f, 3))
        } else {
            None
        };
        r.push(typed_link(group_text(f, 2), title));
        proof {
            assert(hits(found@)[i as int] == f@);
            lemma_take_next(links_of_hits(hits(found@)), i as int);
            assert(links_of(r@) =~= links_of(before).push(link_of_hit(f@)));
        }
    }
    assert(links_of_hits(hits(found@)).take(found@.len() as int) == links_of_hits(hits(found@)));
    r
}

/// Extract all node links in document order, keeping duplicates.
pub fn extract_typed_links(content: &str) -> (r: Vec<TypedLink>)
    ensures
        links_of(r@) == typed_links(content@),
{
    let m = find_matches(NODE_LINK, content);
    links_from_matches(&m.found)
}

/// Extract all `[term](./term.md)` link targets (titled or not), in document
/// order.
pub fn extract_links(content: &str) -> (r: Vec<String>)
    ensures
        texts(r@) == link_terms(typed_links(content@)),
{
    let links = extract_typed_links(content);
    let mut r: Vec<String> = Vec::new();
    for i in 0..links.len()
        invariant
            texts(r@) == link_terms(links_of(links@)).take(i as int),
    {
        proof {
            lemma_push_text(r@, links@[i as int].term);
            lemma_take_next(link_terms(links_of(links@)), i as int);
        }
        r.push(links[i].term.clone());
    }
    assert(link_terms(links_of(links@)).take(links@.len() as int) == link_terms(links_of(links@)));
    r
}

/// The terms that a text links, each once and in order.
pub open spec fn unique_links(content: Seq<char>) -> Seq<Seq<char>> {
    sorted_set(link_terms(typed_links(content)))
}

/// Extract the linked terms, sorted and without duplicates.
pub fn extract_unique_links(content: &str) -> (r: Vec<String>)
    ensures
        texts(r@) == unique_links(content@),
{
    let links = extract_links(content);
    sort_set(&links)
}

/// The URLs that the matches of `EXTERNAL_LINK` hold, in order.
pub open spec fn urls_of_hits(hits: Seq<Hit>) -> Seq<Seq<char>>
    decreases hits.len(),
{
    if hits.len() == 0 {
        Seq::empty()
    } else {
        let before = urls_of_hits(hits.drop_last());
        let h = hits.last();
        if has_group(h, 1) {
            before.push(group(h, 1))
        } else if has_group(h, 2) {
            before.push(group(h, 2))
        } else {
            before
        }
    }
}

/// The `http(s)` references of a text, each once and in order.
pub open spec fn external_links(content: Seq<char>) -> Seq<Seq<char>> {
    sorted_set(urls_of_hits(regex_matches(EXTERNAL_LINK@, content).0))
}

/// The URLs that the matches of `EXTERNAL_LINK` in a text hold, in order.
pub fn urls_from_matches(found: &Vec<Found>) -> (r: Vec<String>)
    ensures
        texts(r@) == urls_of_hits(hits(found@)),
{
    let mut r: Vec<String> = Vec::new();
    let ghost all = hits(found@);
    assert(texts(r@) =~= urls_of_hits(all.take(0)));
    for i in 0..found.len()
        invariant
            all == hits(found@),
            texts(r@) == urls_of_hits(all.take(i as int)),
    {
        let f = &found[i];
        assert(all.take(i + 1).drop_last() == all.take(i as int));
        assert(all.take(i + 1).last() == f@);
        if group_present(f, 1) {
            let t = group_text(f, 1);
            proof {
                lemma_push_text(r@, t);
            }
            r.push(t);
        } else if group_present(f, 2) {
            let t = group_text(f, 2);
            proof {
                lemma_push_text(r@, t);
            }
            r.push(t);
        }
    }
    assert(all.take(found@.len() as int) == all);
    r
}

/// Extract all `http(s)` references: HTML `href="..."` anchors and markdown
/// `[text](https://...)` links. Sorted and deduplicated.
pub fn extract_external_links(content: &str) -> (r: Vec<String>)
    ensures
        texts(r@) == external_links(content@),
{
    let m = find_matches(EXTERNAL_LINK, content);
    let urls = urls_from_matches(&m.found);
    sort_set(&urls)
}

/// The first line that is not blank, trimmed.
pub open spec fn first_line(ls: Seq<Seq<char>>) -> Option<Seq<char>>
    decreases ls.len(),
{
    if ls.len() == 0 {
        None
    } else if trim(ls[0]).len() > 0 {
        Some(trim(ls[0]))
    } else {
        first_line(ls.skip(1))
    }
}

/// The lay definition of a node's text: the first line of its Ontology
/// section that is not blank.
pub open spec fn definition(content: Seq<char>) -> Option<Seq<char>> {
    match section(content, "Ontology"@) {
        None => None,
        Some(text) => first_line(lines(text)),
    }
}

/// The lay definition: the first non-empty line under `## [Ontology]`.
/// `None` when the text has no Ontology section, or an empty one.
pub fn extract_definition(content: &str) -> (r: Option<String>)
    ensures
        opt_text(r) == definition(content@),
{
    match extract_section(content, "Ontology") {
        None => None,
        Some(text) => {
            let cs = chars_of(text.as_str());
            let ls = lines_of(cs.as_slice());
            let ghost all = char_texts(ls@);
            assert(all.skip(0) == all);
            for i in 0..ls.len()
                invariant
                    all == char_texts(ls@),
                    first_line(all) == first_line(all.skip(i as int)),
                    definition(content@) == first_line(all),
            {
                let line = trimmed(ls[i].as_slice());
                assert(all.skip(i as int)[0] == ls@[i as int]@);
                assert(all.skip(i as int).skip(1) == all.skip(i + 1));
                if line.len() > 0 {
                    return Some(text_of(line));
                }
            }
            assert(all.skip(ls@.len() as int) =~= Seq::<Seq<char>>::empty());
            None
        },
    }
}

/// A match of `ANY_LINK` reduced to the link's text.
pub open spec fn link_text() -> spec_fn(Hit) -> Seq<char> {
    |h: Hit| group(h, 1)
}

/// Prose whose links are already reduced, without emphasis and code ticks.
pub open spec fn without_marks(text: Seq<char>) -> Seq<char> {
    trim(without(replace(text, "**"@, ""@), "`*"@))
}

/// A line of prose without markdown links, emphasis and code ticks.
pub open spec fn plain(text: Seq<char>) -> Seq<char> {
    let m = regex_matches(ANY_LINK@, text);
    without_marks(rewrite(m.0, m.1, link_text()))
}

/// Prose with each link, found as a match of `ANY_LINK`, reduced to its text
/// and the emphasis and code ticks removed.
pub fn plain_from_matches(m: &Matches) -> (r: String)
    ensures
        r@ == without_marks(rewrite(m@.0, m@.1, link_text())),
{
    let mut out = String::new();
    let ghost all = hits(m.found@);
    assert(out@ =~= rewrite_hits(all.take(0), link_text()));
    for i in 0..m.found.len()
        invariant
            all == hits(m.found@),
            out@ == rewrite_hits(all.take(i as int), link_text()),
    {
        let f = &m.found[i];
        assert(all.take(i + 1).drop_last() == all.take(i as int));
        assert(all.take(i + 1).last() == f@);
        out.append(f.before.as_str());
        out.append(group_text(f, 1).as_str());
    }
    assert(all.take(m.found@.len() as int) == all);
    out.append(m.rest.as_str());
    let cs = chars_of(out.as_str());
    proof {
        reveal_strlit("**");
    }
    let a = replaced(cs.as_slice(), "**", "");
    let b = removed(a.as_slice(), "`*");
    text_of(trimmed(b.as_slice()))
}

/// Strip markdown links, emphasis, and code ticks from a line of prose.
pub fn plain_text(text: &str) -> (r: String)
    ensures
        r@ == plain(text@),
{
    let m = find_matches(ANY_LINK, text);
    plain_from_matches(&m)
}

/// The terms that file names name: those that end in `.md` with something
/// before it, without that ending.
pub open spec fn md_stems(names: Seq<Seq<char>>) -> Seq<Seq<char>>
    decreases names.len(),
{
    if names.len() == 0 {
        Seq::empty()
    } else {
        let before = md_stems(names.drop_last());
        let name = names.last();
        if name.len() > 3 && ends(name, ".md"@) {
            before.push(name.take(name.len() - 3))
        } else {
            before
        }
    }
}

/// List the terms of a directory's file names, in order.
pub fn list_terms(names: &Vec<String>) -> (r: Vec<String>)
    ensures
        texts(r@) == sorted(md_stems(texts(names@))),
{
    let mut stems: Vec<String> = Vec::new();
    let ghost all = texts(names@);
    assert(texts(stems@) =~= md_stems(all.take(0)));
    for i in 0..names.len()
        invariant
            all == texts(names@),
            texts(stems@) == md_stems(all.take(i as int)),
    {
        let cs = chars_of(names[i].as_str());
        assert(all.take(i + 1).drop_last() == all.take(i as int));
        assert(all.take(i + 1).last() == cs@);
        if cs.len() > 3 && ends_with(cs.as_slice(), ".md") {
            let stem = text_of(head(cs.as_slice(), cs.len() - 3));
            proof {
                lemma_push_text(stems@, stem);
            }
            stems.push(stem);
        }
    }
    assert(all.take(names@.len() as int) == all);
    sort_texts(&stems)
}

}
