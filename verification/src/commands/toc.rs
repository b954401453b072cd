//! A term index with lay definitions.
//!
//! One bullet per term, grouped by ring in the order of the manifest, each
//! carrying the node's `# Title` and its lay definition (the first line of the
//! Ontology section). Terms that no ring declares are listed as unringed, and
//! terms a ring declares without a node file are reported as missing, so the
//! index doubles as a manifest check.
//!
//! Relative `[text](./term.md)` links inside a definition are rewritten to
//! `<base>/term.md` so an index written elsewhere keeps its links live.

use vstd::prelude::*;
use vstd::string::*;

use crate::commands::export::no_ring;
use crate::commands::sources::file_of;
use crate::config::{by_level, ring_at, rings_of, Config, ConfigModel, Ring, RingModel};
use crate::markdown::{
    definition, extract_definition, extract_title, files, plain, plain_text, title, FileModel,
    NodeFile,
};
use crate::number::{decimal, decimal_text};
use crate::order::lemma_contains_last;
use crate::pattern::{
    find_matches, group, group_text, hits, regex_matches, rewrite, rewrite_hits, Hit, Matches,
    NODE_LINK_TARGET,
};
use crate::text::{
    char_texts, chars_of, contains_text, digit, ends, ends_with, head, is_digit,
    join, join_texts, lemma_push_text, lemma_take_next, opt_str, opt_text, same, same_chars,
    split_chars, split_on, starts, starts_with, strip_trailing, stripped_trailing, tail, text_of,
    texts, trim, trim_start, trimmed, trimmed_start,
};

verus! {

/// One term in the index.
#[derive(Debug, Clone, PartialEq, Eq)]
pub struct TocEntry {
    /// The slug: what the file is named.
    pub term: String,
    /// The `# Title` of the node (falls back to the slug).
    pub title: String,
    /// `<base>/<term>.md`.
    pub path: String,
    /// Lay definition as markdown with node links rebased, or `None` when the
    /// node has no Ontology section or it is empty.
    pub definition: Option<String>,
    /// Lay definition with markdown stripped.
    pub definition_text: Option<String>,
}

/// What a term in the index is.
pub struct IndexModel {
    pub term: Seq<char>,
    pub title: Seq<char>,
    pub path: Seq<char>,
    pub definition: Option<Seq<char>>,
    pub definition_text: Option<Seq<char>>,
}

impl View for TocEntry {
    type V = IndexModel;

    open spec fn view(&self) -> IndexModel {
        IndexModel {
            term: self.term@,
            title: self.title@,
            path: self.path@,
            definition: opt_text(self.definition),
            definition_text: opt_text(self.definition_text),
        }
    }
}

/// What a list of terms in the index is.
pub open spec fn entries_of(list: Seq<TocEntry>) -> Seq<IndexModel> {
    Seq::new(list.len(), |i: int| list[i]@)
}

/// One ring section of the index.
#[derive(Debug)]
pub struct TocRing {
    pub level: u32,
    pub name: String,
    pub description: String,
    pub terms: Vec<TocEntry>,
    /// Terms the ring declares that have no node file.
    pub missing: Vec<String>,
}

/// What a ring section is.
pub struct SectionModel {
    pub level: u32,
    pub name: Seq<char>,
    pub description: Seq<char>,
    pub terms: Seq<IndexModel>,
    pub missing: Seq<Seq<char>>,
}

impl View for TocRing {
    type V = SectionModel;

    open spec fn view(&self) -> SectionModel {
        SectionModel {
            level: self.level,
            name: self.name@,
            description: self.description@,
            terms: entries_of(self.terms@),
            missing: texts(self.missing@),
        }
    }
}

/// What a list of ring sections is.
pub open spec fn sections_of(list: Seq<TocRing>) -> Seq<SectionModel> {
    Seq::new(list.len(), |i: int| list[i]@)
}

/// The whole index.
#[derive(Debug)]
pub struct Toc {
    pub name: String,
    pub description: String,
    /// Path prefix links were rebased to.
    pub base: String,
    pub rings: Vec<TocRing>,
    /// Terms that no ring declares, in the order of the nodes.
    pub unringed: Vec<TocEntry>,
}

/// What an index is.
pub struct TocModel {
    pub name: Seq<char>,
    pub description: Seq<char>,
    pub base: Seq<char>,
    pub rings: Seq<SectionModel>,
    pub unringed: Seq<IndexModel>,
}

impl View for Toc {
    type V = TocModel;

    open spec fn view(&self) -> TocModel {
        TocModel {
            name: self.name@,
            description: self.description@,
            base: self.base@,
            rings: sections_of(self.rings@),
            unringed: entries_of(self.unringed@),
        }
    }
}

/// A problem of the index: `term` is the slug, `message` explains it.
#[derive(Debug, Clone, PartialEq, Eq)]
pub struct TocProblem {
    pub term: String,
    pub message: String,
}

/// What a problem is: the term and the message.
pub open spec fn problems_of(list: Seq<TocProblem>) -> Seq<(Seq<char>, Seq<char>)> {
    Seq::new(list.len(), |i: int| (list[i].term@, list[i].message@))
}

// ---------------------------------------------------------------------------
// Entries
// ---------------------------------------------------------------------------

/// The path of a term's node.
pub open spec fn path_of(base: Seq<char>, term: Seq<char>) -> Seq<char> {
    if base.len() == 0 {
        term + ".md"@
    } else {
        base + "/"@ + term + ".md"@
    }
}

/// What stands before the file name in a rebased link.
pub open spec fn link_prefix(base: Seq<char>) -> Seq<char> {
    if base.len() == 0 {
        Seq::empty()
    } else {
        base + "/"@
    }
}

/// The target part of a node link, rebased: only the path is rewritten.
pub open spec fn rebased_target(base: Seq<char>) -> spec_fn(Hit) -> Seq<char> {
    |h: Hit|
        "]("@ + link_prefix(base) + group(h, 1) + ".md"@ + group(h, 2) + group(h, 3) + ")"@
}

/// A text with its node links rebased.
pub open spec fn rebased(text: Seq<char>, base: Seq<char>) -> Seq<char> {
    let m = regex_matches(NODE_LINK_TARGET@, text);
    rewrite(m.0, m.1, rebased_target(base))
}

/// The path of a term's node.
pub fn node_path(base: &str, term: &str) -> (r: String)
    ensures
        r@ == path_of(base@, term@),
{
    if base.unicode_len() == 0 {
        let mut r = term.to_string();
        r.append(".md");
        r
    } else {
        let mut r = base.to_string();
        r.append("/");
        r.append(term);
        r.append(".md");
        r
    }
}

/// A text with its node links, found as matches of `NODE_LINK_TARGET`,
/// rebased.
pub fn rebase_matches(m: &Matches, base: &str) -> (r: String)
    ensures
        r@ == rewrite(m@.0, m@.1, rebased_target(base@)),
{
    let mut prefix = String::new();
    if base.unicode_len() > 0 {
        prefix = base.to_string();
        prefix.append("/");
    }
    assert(prefix@ =~= link_prefix(base@));
    let ghost all = hits(m.found@);
    let ghost render = rebased_target(base@);
    let mut r = String::new();
    assert(r@ =~= rewrite_hits(all.take(0), render));
    for i in 0..m.found.len()
        invariant
            all == hits(m.found@),
            prefix@ == link_prefix(base@),
            render == rebased_target(base@),
            r@ == rewrite_hits(all.take(i as int), render),
    {
        let h = &m.found[i];
        assert(all.take(i + 1).drop_last() == all.take(i as int));
        assert(all.take(i + 1).last() == h@);
        let mut target = "](".to_string();
        target.append(prefix.as_str());
        target.append(group_text(h, 1).as_str());
        target.append(".md");
        target.append(group_text(h, 2).as_str());
        target.append(group_text(h, 3).as_str());
        target.append(")");
        assert(target@ == render(h@));
        r.append(h.before.as_str());
        r.append(target.as_str());
    }
    assert(all.take(m.found@.len() as int) == all);
    r.append(m.rest.as_str());
    r
}

/// A text with its node links rebased.
pub fn rebase_links(text: &str, base: &str) -> (r: String)
    ensures
        r@ == rebased(text@, base@),
        regex_matches(NODE_LINK_TARGET@, text@).0.len() == 0 ==> r@ == text@,
{
    let m = find_matches(NODE_LINK_TARGET, text);
    rebase_matches(&m, base)
}

/// A text that is not empty.
pub open spec fn unless_empty(s: Seq<char>) -> Option<Seq<char>> {
    if s.len() == 0 {
        None
    } else {
        Some(s)
    }
}

/// The lay definition of a node as it stands in the index.
pub open spec fn index_definition(content: Seq<char>, base: Seq<char>) -> Option<Seq<char>> {
    match definition(content) {
        Some(d) => unless_empty(rebased(d, base)),
        None => None,
    }
}

/// A term in the index.
pub open spec fn entry_in(term: Seq<char>, content: Seq<char>, base: Seq<char>) -> IndexModel {
    IndexModel {
        term,
        title: match title(content) {
            Some(t) => t,
            None => term,
        },
        path: path_of(base, term),
        definition: index_definition(content, base),
        definition_text: match index_definition(content, base) {
            Some(d) => unless_empty(plain(d)),
            None => None,
        },
    }
}

fn non_empty(s: String) -> (r: Option<String>)
    ensures
        opt_text(r) == unless_empty(s@),
{
    if s.as_str().unicode_len() == 0 {
        None
    } else {
        Some(s)
    }
}

/// A term in the index.
pub fn entry_from_content(term: &str, content: &str, base: &str) -> (r: TocEntry)
    ensures
        r@ == entry_in(term@, content@, base@),
{
    let title = match extract_title(content) {
        Some(t) => t,
        None => term.to_string(),
    };
    let definition = match extract_definition(content) {
        Some(d) => non_empty(rebase_links(d.as_str(), base)),
        None => None,
    };
    let definition_text = match &definition {
        Some(d) => non_empty(plain_text(d.as_str())),
        None => None,
    };
    TocEntry {
        term: term.to_string(),
        title,
        path: node_path(base, term),
        definition,
        definition_text,
    }
}

// ---------------------------------------------------------------------------
// The index
// ---------------------------------------------------------------------------

/// The entries of the terms that have a node, in the order given.
pub open spec fn found_entries(
    terms: Seq<Seq<char>>,
    all: Seq<FileModel>,
    base: Seq<char>,
) -> Seq<IndexModel>
    decreases terms.len(),
{
    if terms.len() == 0 {
        Seq::empty()
    } else {
        let front = found_entries(terms.drop_last(), all, base);
        match file_of(all, terms.last()) {
            Some(f) => front.push(entry_in(terms.last(), f.content, base)),
            None => front,
        }
    }
}

/// The terms that have no node, in the order given.
pub open spec fn missing_terms(terms: Seq<Seq<char>>, all: Seq<FileModel>) -> Seq<Seq<char>>
    decreases terms.len(),
{
    if terms.len() == 0 {
        Seq::empty()
    } else {
        let front = missing_terms(terms.drop_last(), all);
        match file_of(all, terms.last()) {
            Some(_) => front,
            None => front.push(terms.last()),
        }
    }
}

/// A ring section.
pub open spec fn section_of(r: RingModel, all: Seq<FileModel>, base: Seq<char>) -> SectionModel {
    SectionModel {
        level: r.level,
        name: r.name,
        description: r.description,
        terms: found_entries(r.terms, all, base),
        missing: missing_terms(r.terms, all),
    }
}

/// The ring sections: all of them, or the one of a level.
pub open spec fn sections(
    rings: Seq<RingModel>,
    ring: Option<u32>,
    all: Seq<FileModel>,
    base: Seq<char>,
) -> Seq<SectionModel>
    decreases rings.len(),
{
    if rings.len() == 0 {
        Seq::empty()
    } else {
        let front = sections(rings.drop_last(), ring, all, base);
        if ring is None || ring->Some_0 == rings.last().level {
            front.push(section_of(rings.last(), all, base))
        } else {
            front
        }
    }
}

/// Some ring declares the term.
pub open spec fn declared(rings: Seq<RingModel>, term: Seq<char>) -> bool {
    exists|i: int| 0 <= i < rings.len() && (#[trigger] rings[i]).terms.contains(term)
}

/// The entries of the first `n` nodes that no ring declares.
pub open spec fn unringed_entries(
    rings: Seq<RingModel>,
    all: Seq<FileModel>,
    base: Seq<char>,
    n: nat,
) -> Seq<IndexModel>
    decreases n,
{
    if n == 0 {
        Seq::empty()
    } else {
        let front = unringed_entries(rings, all, base, (n - 1) as nat);
        let f = all[n - 1];
        if declared(rings, f.term) {
            front
        } else {
            front.push(entry_in(f.term, f.content, base))
        }
    }
}

/// The index of an ontology, or why there is none. With a ring only that ring
/// is listed, and no unringed terms.
pub open spec fn toc_of(
    config: ConfigModel,
    all: Seq<FileModel>,
    ring: Option<u32>,
    base: Seq<char>,
) -> Result<TocModel, Seq<char>> {
    let prefix = strip_trailing(base, "/"@);
    if ring is Some && ring_at(config.rings, ring->Some_0) is None {
        Err(no_ring(ring->Some_0))
    } else {
        Ok(
            TocModel {
                name: config.meta.name,
                description: config.meta.description,
                base: prefix,
                rings: sections(by_level(config.rings), ring, all, prefix),
                unringed: if ring is None {
                    unringed_entries(by_level(config.rings), all, prefix, all.len())
                } else {
                    Seq::empty()
                },
            },
        )
    }
}

fn place_of(all: &Vec<NodeFile>, term: &str) -> (r: Option<usize>)
    ensures
        r is Some <==> file_of(files(all@), term@) is Some,
        r matches Some(i) ==> i < all@.len() && file_of(files(all@), term@) == Some(
            all@[i as int]@,
        ),
{
    let ghost every = files(all@);
    assert(every.skip(0) == every);
    for i in 0..all.len()
        invariant
            every == files(all@),
            file_of(every, term@) == file_of(every.skip(i as int), term@),
    {
        assert(every.skip(i as int)[0] == all@[i as int]@);
        assert(every.skip(i as int).skip(1) == every.skip(i + 1));
        if same(all[i].term.as_str(), term) {
            return Some(i);
        }
    }
    assert(every.skip(all@.len() as int) =~= Seq::<FileModel>::empty());
    None
}

fn build_section(r: &Ring, all: &Vec<NodeFile>, base: &str) -> (s: TocRing)
    ensures
        s@ == section_of(r@, files(all@), base@),
{
    let ghost list = texts(r.terms@);
    let ghost every = files(all@);
    let mut terms: Vec<TocEntry> = Vec::new();
    let mut missing: Vec<String> = Vec::new();
    assert(entries_of(terms@) =~= found_entries(list.take(0), every, base@));
    assert(texts(missing@) =~= missing_terms(list.take(0), every));
    for i in 0..r.terms.len()
        invariant
            list == texts(r.terms@),
            every == files(all@),
            entries_of(terms@) == found_entries(list.take(i as int), every, base@),
            texts(missing@) == missing_terms(list.take(i as int), every),
    {
        assert(list.take(i + 1).drop_last() == list.take(i as int));
        assert(list.take(i + 1).last() == r.terms@[i as int]@);
        match place_of(all, r.terms[i].as_str()) {
            Some(k) => {
                let e = entry_from_content(r.terms[i].as_str(), all[k].content.as_str(), base);
                let ghost before = terms@;
                terms.push(e);
                assert(entries_of(terms@) =~= entries_of(before).push(e@));
            },
            None => {
                proof {
                    lemma_push_text(missing@, r.terms@[i as int]);
                }
                missing.push(r.terms[i].clone());
            },
        }
    }
    assert(list.take(r.terms@.len() as int) == list);
    TocRing {
        level: r.level,
        name: r.name.clone(),
        description: r.description.clone(),
        terms,
        missing,
    }
}

fn is_declared(rings: &Vec<Ring>, term: &str) -> (r: bool)
    ensures
        r == declared(rings_of(rings@), term@),
{
    for i in 0..rings.len()
        invariant
            forall|j: int| 0 <= j < i ==> !(#[trigger] rings_of(rings@)[j]).terms.contains(term@),
    {
        assert(rings_of(rings@)[i as int] == rings@[i as int]@);
        if contains_text(&rings[i].terms, term) {
            return true;
        }
    }
    false
}

/// Build the index model.
///
/// `ring` restricts the index to one ring; unringed terms are then omitted.
/// `base` is the link prefix, used verbatim (a trailing `/` is dropped).
pub fn build(config: &Config, all: &Vec<NodeFile>, ring: Option<u32>, base: &str) -> (r: Result<
    Toc,
    String,
>)
    ensures
        match r {
            Ok(toc) => toc_of(config@, files(all@), ring, base@) == Ok::<TocModel, Seq<char>>(
                toc@,
            ),
            Err(e) => toc_of(config@, files(all@), ring, base@) == Err::<TocModel, Seq<char>>(e@),
        },
{
    if let Some(level) = ring {
        if config.get_ring(level).is_none() {
            let mut e = "Ring ".to_string();
            e.append(decimal_text(level as u64).as_str());
            e.append(" not defined in existence.toml");
            return Err(e);
        }
    }
    let cs = chars_of(base);
    let prefix = text_of(stripped_trailing(cs.as_slice(), "/"));
    let ghost every = files(all@);
    let sorted_rings = config.rings_sorted();
    let ghost list = rings_of(sorted_rings@);
    let mut rings: Vec<TocRing> = Vec::new();
    assert(sections_of(rings@) =~= sections(list.take(0), ring, every, prefix@));
    for i in 0..sorted_rings.len()
        invariant
            list == rings_of(sorted_rings@),
            every == files(all@),
            sections_of(rings@) == sections(list.take(i as int), ring, every, prefix@),
    {
        assert(list.take(i + 1).drop_last() == list.take(i as int));
        assert(list.take(i + 1).last() == sorted_rings@[i as int]@);
        let listed = match ring {
            Some(only) => only == sorted_rings[i].level,
            None => true,
        };
        if listed {
            let s = build_section(&sorted_rings[i], all, prefix.as_str());
            let ghost before = rings@;
            rings.push(s);
            assert(sections_of(rings@) =~= sections_of(before).push(s@));
        }
    }
    assert(list.take(sorted_rings@.len() as int) == list);
    let mut unringed: Vec<TocEntry> = Vec::new();
    assert(entries_of(unringed@) =~= Seq::<IndexModel>::empty());
    if ring.is_none() {
        for i in 0..all.len()
            invariant
                list == rings_of(sorted_rings@),
                every == files(all@),
                entries_of(unringed@) == unringed_entries(list, every, prefix@, i as nat),
        {
            assert(every[i as int] == all@[i as int]@);
            if !is_declared(&sorted_rings, all[i].term.as_str()) {
                let e = entry_from_content(
                    all[i].term.as_str(),
                    all[i].content.as_str(),
                    prefix.as_str(),
                );
                let ghost before = unringed@;
                unringed.push(e);
                assert(entries_of(unringed@) =~= entries_of(before).push(e@));
            }
        }
    }
    Ok(
        Toc {
            name: config.meta.name.clone(),
            description: config.meta.description.clone(),
            base: prefix,
            rings,
            unringed,
        },
    )
}

// ---------------------------------------------------------------------------
// Markdown
// ---------------------------------------------------------------------------

/// The bullet of a term.
pub open spec fn bullet_of(e: IndexModel) -> Seq<char> {
    "- [**"@ + e.title + "**]("@ + e.path + ") — "@ + (match e.definition {
        Some(d) => d,
        None => "*(no lay definition)*"@,
    }) + "\n"@
}

/// The bullets of the first `n` terms.
pub open spec fn bullets(list: Seq<IndexModel>, n: nat) -> Seq<char>
    decreases n,
{
    if n == 0 {
        Seq::empty()
    } else {
        bullets(list, (n - 1) as nat) + bullet_of(list[n - 1])
    }
}

/// The bullets of the first `n` missing terms.
pub open spec fn missing_bullets(base: Seq<char>, list: Seq<Seq<char>>, n: nat) -> Seq<char>
    decreases n,
{
    if n == 0 {
        Seq::empty()
    } else {
        missing_bullets(base, list, (n - 1) as nat) + "- `"@ + list[n - 1]
            + "` — *missing: no `"@ + path_of(base, list[n - 1]) + "`*\n"@
    }
}

/// A description with an empty line after it; nothing when it is empty.
pub open spec fn paragraph(s: Seq<char>) -> Seq<char> {
    if s.len() == 0 {
        Seq::empty()
    } else {
        s + "\n\n"@
    }
}

/// The section of a ring in markdown.
pub open spec fn section_text(base: Seq<char>, r: SectionModel) -> Seq<char> {
    "## Ring "@ + decimal(r.level as nat) + " — "@ + r.name + "\n\n"@ + paragraph(r.description)
        + bullets(r.terms, r.terms.len()) + missing_bullets(base, r.missing, r.missing.len()) + (
    if r.terms.len() > 0 || r.missing.len() > 0 {
        "\n"@
    } else {
        ""@
    })
}

/// The sections of the first `n` rings in markdown.
pub open spec fn sections_text(base: Seq<char>, list: Seq<SectionModel>, n: nat) -> Seq<char>
    decreases n,
{
    if n == 0 {
        Seq::empty()
    } else {
        sections_text(base, list, (n - 1) as nat) + section_text(base, list[n - 1])
    }
}

/// The section of unringed terms in markdown; nothing when there are none.
pub open spec fn unringed_text(list: Seq<IndexModel>) -> Seq<char> {
    if list.len() == 0 {
        Seq::empty()
    } else {
        "## Unringed\n\nTerms in `src/` that no ring in `existence.toml` declares.\n\n"@ + bullets(
            list,
            list.len(),
        ) + "\n"@
    }
}

/// A text with at most one line break at its end.
pub open spec fn one_break(s: Seq<char>) -> Seq<char>
    decreases s.len(),
{
    if s.len() > 0 && ends(s, "\n\n"@) {
        one_break(s.drop_last())
    } else {
        s
    }
}

/// An index in markdown.
pub open spec fn markdown_of(toc: TocModel) -> Seq<char> {
    one_break(
        "# "@ + toc.name + "\n\n"@ + paragraph(toc.description) + sections_text(
            toc.base,
            toc.rings,
            toc.rings.len(),
        ) + unringed_text(toc.unringed),
    )
}

/// The bullet of a term.
pub fn bullet(e: &TocEntry) -> (r: String)
    ensures
        r@ == bullet_of(e@),
{
    let mut r = "- [**".to_string();
    r.append(e.title.as_str());
    r.append("**](");
    r.append(e.path.as_str());
    r.append(") — ");
    match &e.definition {
        Some(d) => {
            r.append(d.as_str());
        },
        None => {
            r.append("*(no lay definition)*");
        },
    }
    r.append("\n");
    r
}

fn bullets_text(list: &Vec<TocEntry>) -> (r: String)
    ensures
        r@ == bullets(entries_of(list@), list@.len()),
{
    let mut r = String::new();
    for i in 0..list.len()
        invariant
            r@ == bullets(entries_of(list@), i as nat),
    {
        assert(entries_of(list@)[i as int] == list@[i as int]@);
        r.append(bullet(&list[i]).as_str());
    }
    r
}

fn missing_text(base: &str, list: &Vec<String>) -> (r: String)
    ensures
        r@ == missing_bullets(base@, texts(list@), list@.len()),
{
    let mut r = String::new();
    for i in 0..list.len()
        invariant
            r@ == missing_bullets(base@, texts(list@), i as nat),
    {
        assert(texts(list@)[i as int] == list@[i as int]@);
        r.append("- `");
        r.append(list[i].as_str());
        r.append("` — *missing: no `");
        r.append(node_path(base, list[i].as_str()).as_str());
        r.append("`*\n");
    }
    r
}

fn paragraph_text(s: &str) -> (r: String)
    ensures
        r@ == paragraph(s@),
{
    let mut r = String::new();
    if s.unicode_len() > 0 {
        r = s.to_string();
        r.append("\n\n");
    }
    assert(r@ =~= paragraph(s@));
    r
}

fn text_of_section(base: &str, s: &TocRing) -> (r: String)
    ensures
        r@ == section_text(base@, s@),
{
    let mut r = "## Ring ".to_string();
    r.append(decimal_text(s.level as u64).as_str());
    r.append(" — ");
    r.append(s.name.as_str());
    r.append("\n\n");
    r.append(paragraph_text(s.description.as_str()).as_str());
    r.append(bullets_text(&s.terms).as_str());
    r.append(missing_text(base, &s.missing).as_str());
    r.append(
        if s.terms.len() > 0 || s.missing.len() > 0 {
            "\n"
        } else {
            ""
        },
    );
    r
}

/// Render the index as markdown.
pub fn to_markdown(toc: &Toc) -> (r: String)
    ensures
        r@ == markdown_of(toc@),
{
    let mut out = "# ".to_string();
    out.append(toc.name.as_str());
    out.append("\n\n");
    out.append(paragraph_text(toc.description.as_str()).as_str());
    let mut body = String::new();
    for i in 0..toc.rings.len()
        invariant
            body@ == sections_text(toc@.base, toc@.rings, i as nat),
    {
        assert(toc@.rings[i as int] == toc.rings@[i as int]@);
        body.append(text_of_section(toc.base.as_str(), &toc.rings[i]).as_str());
    }
    out.append(body.as_str());
    let mut rest = String::new();
    if toc.unringed.len() > 0 {
        rest =
        "## Unringed\n\nTerms in `src/` that no ring in `existence.toml` declares.\n\n".to_string();
        rest.append(bullets_text(&toc.unringed).as_str());
        rest.append("\n");
    }
    assert(rest@ =~= unringed_text(toc@.unringed));
    out.append(rest.as_str());
    let cs = chars_of(out.as_str());
    let mut n: usize = cs.len();
    assert(cs@.take(n as int) == cs@);
    while n > 0 && ends_with(head(cs.as_slice(), n), "\n\n")
        invariant
            n <= cs@.len(),
            one_break(cs@) == one_break(cs@.take(n as int)),
        decreases n,
    {
        assert(cs@.take(n as int).drop_last() == cs@.take(n - 1));
        n = n - 1;
    }
    text_of(head(cs.as_slice(), n))
}

// ---------------------------------------------------------------------------
// Problems
// ---------------------------------------------------------------------------

/// A line that begins a block of markup.
pub open spec fn starts_block(t: Seq<char>) -> bool {
    ||| starts(t, ">"@)
    ||| starts(t, "#"@)
    ||| starts(t, "- "@)
    ||| starts(t, "+ "@)
    ||| starts(t, "* "@)
    ||| starts(t, "|"@)
    ||| starts(t, "```"@)
    ||| starts(t, "~~~"@)
    ||| starts(t, "<"@)
    ||| starts(t, "!["@)
    ||| starts(t, "[^"@)
}

/// How many digits a text begins with.
pub open spec fn leading_digits(t: Seq<char>) -> nat
    decreases t.len(),
{
    if t.len() > 0 && is_digit(t[0]) {
        1 + leading_digits(t.skip(1))
    } else {
        0
    }
}

/// A line that is an item of an ordered list: `1. item` or `1) item`.
pub open spec fn ordered_item(t: Seq<char>) -> bool {
    let n = leading_digits(t) as int;
    n > 0 && (starts(t.skip(n), ". "@) || starts(t.skip(n), ") "@))
}

/// A line that reads as prose rather than block markup: not a blockquote,
/// heading, list item, table row, fence, HTML tag, image, or footnote.
pub open spec fn plain_sentence(line: Seq<char>) -> bool {
    let t = trim_start(line);
    t.len() > 0 && !starts_block(t) && !ordered_item(t)
}

/// Whether a line reads as prose rather than block markup: not a blockquote,
/// heading, list item, table row, fence, HTML tag, image, or footnote.
pub fn is_plain_sentence(line: &str) -> (r: bool)
    ensures
        r == plain_sentence(line@),
{
    let cs = chars_of(line);
    let t = trimmed_start(cs.as_slice());
    if t.len() == 0 {
        return false;
    }
    if starts_with(t, ">") || starts_with(t, "#") || starts_with(t, "- ") || starts_with(t, "+ ")
        || starts_with(t, "* ") || starts_with(t, "|") || starts_with(t, "```") || starts_with(
        t,
        "~~~",
    ) || starts_with(t, "<") || starts_with(t, "![") || starts_with(t, "[^") {
        return false;
    }
    let mut n: usize = 0;
    assert(t@.skip(0) == t@);
    while n < t.len() && digit(t[n])
        invariant
            n <= t@.len(),
            leading_digits(t@) == n + leading_digits(t@.skip(n as int)),
        decreases t@.len() - n,
    {
        assert(t@.skip(n as int)[0] == t@[n as int]);
        assert(t@.skip(n as int).skip(1) == t@.skip(n + 1));
        n = n + 1;
    }
    assert(leading_digits(t@.skip(n as int)) == 0) by {
        if n < t@.len() {
            assert(t@.skip(n as int)[0] == t@[n as int]);
        }
    }
    let rest = tail(t, n);
    !(n > 0 && (starts_with(rest, ". ") || starts_with(rest, ") ")))
}

/// The beginning of a text between quotation marks, with an ellipsis when it
/// goes on.
pub open spec fn preview_of(text: Seq<char>) -> Seq<char> {
    let t = trim(text);
    if t.len() <= 60 {
        "\""@ + t + "\""@
    } else {
        "\""@ + t.take(60) + "…\""@
    }
}

fn preview(text: &str) -> (r: String)
    ensures
        r@ == preview_of(text@),
{
    let cs = chars_of(text);
    let t = trimmed(cs.as_slice());
    let mut r = "\"".to_string();
    if t.len() <= 60 {
        r.append(text_of(t).as_str());
        r.append("\"");
    } else {
        r.append(text_of(head(t, 60)).as_str());
        r.append("…\"");
    }
    r
}

/// What is wrong with the lay definition of a term.
pub open spec fn definition_fault(e: IndexModel) -> Option<Seq<char>> {
    match e.definition {
        None => Some("Ontology section is missing or empty (no lay definition)"@),
        Some(d) => if !plain_sentence(d) {
            Some("Ontology section does not open with a plain sentence: "@ + preview_of(d))
        } else if e.definition_text is None {
            Some("lay definition has no text once markdown is stripped"@)
        } else {
            None
        },
    }
}

/// The problems of the first `n` terms.
pub open spec fn entry_problems(list: Seq<IndexModel>, n: nat) -> Seq<(Seq<char>, Seq<char>)>
    decreases n,
{
    if n == 0 {
        Seq::empty()
    } else {
        let front = entry_problems(list, (n - 1) as nat);
        match definition_fault(list[n - 1]) {
            Some(message) => front.push((list[n - 1].term, message)),
            None => front,
        }
    }
}

/// The problem of a term that a ring declares without a node.
pub open spec fn missing_problem(
    base: Seq<char>,
    level: u32,
    term: Seq<char>,
) -> (Seq<char>, Seq<char>) {
    (
        term,
        "declared in ring "@ + decimal(level as nat) + " of existence.toml but "@ + path_of(
            base,
            term,
        ) + " does not exist"@,
    )
}

/// The problems of the terms that a ring declares without a node.
pub open spec fn missing_problems(
    base: Seq<char>,
    level: u32,
    list: Seq<Seq<char>>,
) -> Seq<(Seq<char>, Seq<char>)> {
    Seq::new(list.len(), |i: int| missing_problem(base, level, list[i]))
}

/// The problems of the first `n` ring sections.
pub open spec fn section_problems(
    base: Seq<char>,
    list: Seq<SectionModel>,
    n: nat,
) -> Seq<(Seq<char>, Seq<char>)>
    decreases n,
{
    if n == 0 {
        Seq::empty()
    } else {
        let r = list[n - 1];
        section_problems(base, list, (n - 1) as nat) + entry_problems(r.terms, r.terms.len())
            + missing_problems(base, r.level, r.missing)
    }
}

/// The problem of a term that no ring declares.
pub open spec fn undeclared(term: Seq<char>) -> (Seq<char>, Seq<char>) {
    (term, "not declared in any ring of existence.toml"@)
}

/// The problems of the first `n` unringed terms.
pub open spec fn unringed_problems(list: Seq<IndexModel>, n: nat) -> Seq<(Seq<char>, Seq<char>)>
    decreases n,
{
    if n == 0 {
        Seq::empty()
    } else {
        let front = unringed_problems(list, (n - 1) as nat);
        let e = list[n - 1];
        match definition_fault(e) {
            Some(message) => front.push((e.term, message)).push(undeclared(e.term)),
            None => front.push(undeclared(e.term)),
        }
    }
}

/// The problems of an index: a node whose Ontology section does not open with
/// a plain sentence, a ring term with no node file, or a node no ring
/// declares.
pub open spec fn toc_problems(toc: TocModel) -> Seq<(Seq<char>, Seq<char>)> {
    section_problems(toc.base, toc.rings, toc.rings.len()) + unringed_problems(
        toc.unringed,
        toc.unringed.len(),
    )
}

fn definition_problem(e: &TocEntry) -> (r: Option<String>)
    ensures
        opt_text(r) == definition_fault(e@),
{
    match &e.definition {
        None => Some("Ontology section is missing or empty (no lay definition)".to_string()),
        Some(d) => {
            if !is_plain_sentence(d.as_str()) {
                let mut m = "Ontology section does not open with a plain sentence: ".to_string();
                m.append(preview(d.as_str()).as_str());
                return Some(m);
            }
            if e.definition_text.is_none() {
                return Some("lay definition has no text once markdown is stripped".to_string());
            }
            None
        },
    }
}

fn push_problem(out: &mut Vec<TocProblem>, term: &String, message: String)
    ensures
        problems_of(final(out)@) == problems_of(old(out)@).push((term@, message@)),
{
    let ghost before = out@;
    out.push(TocProblem { term: term.clone(), message });
    assert(problems_of(out@) =~= problems_of(before).push((term@, message@)));
}

fn add_entry_problems(out: &mut Vec<TocProblem>, list: &Vec<TocEntry>)
    ensures
        problems_of(final(out)@) == problems_of(old(out)@) + entry_problems(
            entries_of(list@),
            list@.len(),
        ),
{
    let ghost start = problems_of(out@);
    let ghost all = entries_of(list@);
    assert(start + entry_problems(all, 0) =~= start);
    for i in 0..list.len()
        invariant
            all == entries_of(list@),
            problems_of(out@) == start + entry_problems(all, i as nat),
    {
        assert(all[i as int] == list@[i as int]@);
        if let Some(message) = definition_problem(&list[i]) {
            let ghost item = (list@[i as int].term@, message@);
            push_problem(out, &list[i].term, message);
            assert((start + entry_problems(all, i as nat)).push(item) =~= start + entry_problems(
                all,
                i as nat,
            ).push(item));
        }
    }
}

fn add_missing_problems(
    out: &mut Vec<TocProblem>,
    base: &str,
    level: u32,
    list: &Vec<String>,
)
    ensures
        problems_of(final(out)@) == problems_of(old(out)@) + missing_problems(
            base@,
            level,
            texts(list@),
        ),
{
    let ghost start = problems_of(out@);
    let ghost all = missing_problems(base@, level, texts(list@));
    assert(start + all.take(0) =~= start);
    for i in 0..list.len()
        invariant
            all == missing_problems(base@, level, texts(list@)),
            problems_of(out@) == start + all.take(i as int),
    {
        let mut m = "declared in ring ".to_string();
        m.append(decimal_text(level as u64).as_str());
        m.append(" of existence.toml but ");
        m.append(node_path(base, list[i].as_str()).as_str());
        m.append(" does not exist");
        proof {
            lemma_take_next(all, i as int);
            assert((start + all.take(i as int)).push(all[i as int]) =~= start + all.take(i + 1));
        }
        push_problem(out, &list[i], m);
    }
    assert(all.take(list@.len() as int) == all);
}

/// The problems of an index: a node whose Ontology section does not open with
/// a plain sentence, a ring term with no node file, or a node no ring
/// declares.
pub fn problems(toc: &Toc) -> (r: Vec<TocProblem>)
    ensures
        problems_of(r@) == toc_problems(toc@),
{
    let mut out: Vec<TocProblem> = Vec::new();
    let ghost rings = sections_of(toc.rings@);
    assert(problems_of(out@) =~= section_problems(toc@.base, rings, 0));
    for i in 0..toc.rings.len()
        invariant
            rings == sections_of(toc.rings@),
            problems_of(out@) == section_problems(toc@.base, rings, i as nat),
    {
        let r = &toc.rings[i];
        assert(rings[i as int] == r@);
        assert(entries_of(r.terms@).len() == r.terms@.len());
        add_entry_problems(&mut out, &r.terms);
        add_missing_problems(&mut out, toc.base.as_str(), r.level, &r.missing);
    }
    let ghost start = problems_of(out@);
    let ghost all = entries_of(toc.unringed@);
    assert(start + unringed_problems(all, 0) =~= start);
    for i in 0..toc.unringed.len()
        invariant
            all == entries_of(toc.unringed@),
            problems_of(out@) == start + unringed_problems(all, i as nat),
    {
        let e = &toc.unringed[i];
        assert(all[i as int] == e@);
        let ghost front = unringed_problems(all, i as nat);
        if let Some(message) = definition_problem(e) {
            push_problem(&mut out, &e.term, message);
        }
        push_problem(
            &mut out,
            &e.term,
            "not declared in any ring of existence.toml".to_string(),
        );
        assert(problems_of(out@) =~= start + unringed_problems(all, (i + 1) as nat));
    }
    out
}

// ---------------------------------------------------------------------------
// Paths
// ---------------------------------------------------------------------------

/// The parts of a path: what stands between its slashes, without empty parts
/// and `.`.
pub open spec fn path_parts(parts: Seq<Seq<char>>) -> Seq<Seq<char>>
    decreases parts.len(),
{
    if parts.len() == 0 {
        Seq::empty()
    } else if parts.last().len() == 0 || parts.last() == "."@ {
        path_parts(parts.drop_last())
    } else {
        path_parts(parts.drop_last()).push(parts.last())
    }
}

/// The components of an absolute path.
pub open spec fn components(path: Seq<char>) -> Seq<Seq<char>> {
    path_parts(split_on(path, '/'))
}

/// How many components two paths begin with alike.
pub open spec fn shared_start(from: Seq<Seq<char>>, to: Seq<Seq<char>>) -> nat
    decreases from.len(),
{
    if from.len() > 0 && to.len() > 0 && from[0] == to[0] {
        1 + shared_start(from.skip(1), to.skip(1))
    } else {
        0
    }
}

/// The steps from one directory to another: up to the directory they share,
/// then down.
pub open spec fn steps(from: Seq<Seq<char>>, to: Seq<Seq<char>>) -> Seq<Seq<char>> {
    let n = shared_start(from, to);
    Seq::new((from.len() - n) as nat, |i: int| ".."@) + to.skip(n as int)
}

/// The path from one directory to another; `.` from a directory to itself.
pub open spec fn path_between(from: Seq<char>, to: Seq<char>) -> Seq<char> {
    let parts = steps(components(from), components(to));
    if parts.len() == 0 {
        "."@
    } else {
        join(parts, "/"@)
    }
}

fn components_of(path: &str) -> (r: Vec<String>)
    ensures
        texts(r@) == components(path@),
{
    let cs = chars_of(path);
    let parts = split_chars(cs.as_slice(), '/');
    let ghost all = char_texts(parts@);
    let mut r: Vec<String> = Vec::new();
    let dot = chars_of(".");
    assert(texts(r@) =~= path_parts(all.take(0)));
    for i in 0..parts.len()
        invariant
            all == char_texts(parts@),
            dot@ == "."@,
            texts(r@) == path_parts(all.take(i as int)),
    {
        assert(all.take(i + 1).drop_last() == all.take(i as int));
        assert(all.take(i + 1).last() == parts@[i as int]@);
        if parts[i].len() > 0 && !same_chars(parts[i].as_slice(), dot.as_slice()) {
            let part = text_of(parts[i].as_slice());
            proof {
                lemma_push_text(r@, part);
            }
            r.push(part);
        }
    }
    assert(all.take(parts@.len() as int) == all);
    r
}

/// `to` relative to `from` (both absolute), with `/` separators. Same
/// directory yields `.`.
pub fn relative_path(from: &str, to: &str) -> (r: String)
    ensures
        r@ == path_between(from@, to@),
{
    let a = components_of(from);
    let b = components_of(to);
    let ghost x = texts(a@);
    let ghost y = texts(b@);
    let mut n: usize = 0;
    assert(x.skip(0) == x && y.skip(0) == y);
    while n < a.len() && n < b.len() && same(a[n].as_str(), b[n].as_str())
        invariant
            x == texts(a@),
            y == texts(b@),
            n <= a@.len(),
            n <= b@.len(),
            shared_start(x, y) == n + shared_start(x.skip(n as int), y.skip(n as int)),
        decreases a@.len() - n,
    {
        assert(x.skip(n as int)[0] == a@[n as int]@);
        assert(y.skip(n as int)[0] == b@[n as int]@);
        assert(x.skip(n as int).skip(1) == x.skip(n + 1));
        assert(y.skip(n as int).skip(1) == y.skip(n + 1));
        n = n + 1;
    }
    assert(shared_start(x.skip(n as int), y.skip(n as int)) == 0) by {
        if n < x.len() && n < y.len() {
            assert(x.skip(n as int)[0] == a@[n as int]@);
            assert(y.skip(n as int)[0] == b@[n as int]@);
        }
    }
    let ghost all = steps(x, y);
    let mut parts: Vec<String> = Vec::new();
    assert(texts(parts@) =~= all.take(0));
    for i in n..a.len()
        invariant
            x == texts(a@),
            y == texts(b@),
            n == shared_start(x, y),
            n <= a@.len(),
            all == steps(x, y),
            texts(parts@) == all.take(i - n),
    {
        let up = "..".to_string();
        proof {
            lemma_push_text(parts@, up);
            lemma_take_next(all, i - n);
        }
        parts.push(up);
    }
    let ghost ups = a@.len() - n;
    for i in n..b.len()
        invariant
            x == texts(a@),
            y == texts(b@),
            n == shared_start(x, y),
            n <= a@.len(),
            ups == a@.len() - n,
            all == steps(x, y),
            texts(parts@) == all.take(ups + i - n),
    {
        proof {
            lemma_push_text(parts@, b@[i as int]);
            lemma_take_next(all, ups + i - n);
            assert(all[ups + i - n] == b@[i as int]@);
        }
        parts.push(b[i].clone());
    }
    assert(texts(parts@) =~= all);
    assert(all.len() == parts@.len());
    if parts.len() == 0 {
        ".".to_string()
    } else {
        join_texts(&parts, "/")
    }
}

/// The link prefix of an index, from the directory it is written to and the
/// directory of the nodes: the path between them when both are known, else
/// `src`.
pub open spec fn base_by_default(from: Option<Seq<char>>, to: Option<Seq<char>>) -> Seq<char> {
    match (from, to) {
        (Some(a), Some(b)) => path_between(a, b),
        _ => "src"@,
    }
}

/// The link prefix of an index for which none is given. `output_dir` is the
/// directory that the index is written to, `None` when it is printed or the
/// directory does not exist; `src_dir` is the directory of the nodes, `None`
/// when it does not exist. Both are absolute.
pub fn default_base(output_dir: Option<&str>, src_dir: Option<&str>) -> (r: String)
    ensures
        r@ == base_by_default(opt_str(output_dir), opt_str(src_dir)),
{
    match (output_dir, src_dir) {
        (Some(from), Some(to)) => relative_path(from, to),
        _ => "src".to_string(),
    }
}

// ---------------------------------------------------------------------------
// The command
// ---------------------------------------------------------------------------

/// What the command hands out.
#[derive(Debug)]
pub enum TocOutput {
    /// The index in markdown.
    Markdown(String),
    /// The index itself, for JSON.
    Json(Toc),
    /// A check that found nothing: the line that says so.
    Clean(String),
    /// A check that found problems: a line for each, and the line that counts
    /// them.
    Problems(Vec<String>, String),
}

/// What an output is.
pub enum OutputModel {
    Markdown(Seq<char>),
    Json(TocModel),
    Clean(Seq<char>),
    Problems(Seq<Seq<char>>, Seq<char>),
}

impl View for TocOutput {
    type V = OutputModel;

    open spec fn view(&self) -> OutputModel {
        match self {
            TocOutput::Markdown(t) => OutputModel::Markdown(t@),
            TocOutput::Json(toc) => OutputModel::Json(toc@),
            TocOutput::Clean(t) => OutputModel::Clean(t@),
            TocOutput::Problems(list, t) => OutputModel::Problems(texts(list@), t@),
        }
    }
}

/// How many terms the first `n` sections list.
pub open spec fn listed_total(list: Seq<SectionModel>, n: nat) -> nat
    decreases n,
{
    if n == 0 {
        0
    } else {
        listed_total(list, (n - 1) as nat) + list[n - 1].terms.len()
    }
}

/// How many terms the first `n` rings declare.
pub open spec fn declared_total(list: Seq<RingModel>, n: nat) -> nat
    decreases n,
{
    if n == 0 {
        0
    } else {
        declared_total(list, (n - 1) as nat) + list[n - 1].terms.len()
    }
}

/// How many terms an index lists.
pub open spec fn index_size(toc: TocModel) -> nat {
    listed_total(toc.rings, toc.rings.len()) + toc.unringed.len()
}

/// The line of a problem.
pub open spec fn problem_line(p: (Seq<char>, Seq<char>)) -> Seq<char> {
    p.0 + ": "@ + p.1
}

/// The lines of problems.
pub open spec fn problem_lines(list: Seq<(Seq<char>, Seq<char>)>) -> Seq<Seq<char>> {
    Seq::new(list.len(), |i: int| problem_line(list[i]))
}

/// What a check of an index says.
pub open spec fn checked(toc: TocModel) -> OutputModel {
    let found = toc_problems(toc);
    if found.len() == 0 {
        OutputModel::Clean("toc: "@ + decimal(index_size(toc)) + " term(s), no problems."@)
    } else {
        OutputModel::Problems(
            problem_lines(found),
            decimal(found.len()) + " toc problem(s) found"@,
        )
    }
}

/// An index in a format, or why not.
pub open spec fn formatted(toc: TocModel, format: Seq<char>) -> Result<OutputModel, Seq<char>> {
    if format == "markdown"@ || format == "md"@ {
        Ok(OutputModel::Markdown(markdown_of(toc)))
    } else if format == "json"@ {
        Ok(OutputModel::Json(toc))
    } else {
        Err(
            "Unknown toc format '"@ + format + "' (expected \"markdown\" or \"json\")"@,
        )
    }
}

/// What the command hands out for an ontology, or why it cannot.
pub open spec fn toc_output(
    config: ConfigModel,
    all: Seq<FileModel>,
    ring: Option<u32>,
    format: Seq<char>,
    base: Seq<char>,
    check: bool,
) -> Result<OutputModel, Seq<char>> {
    match toc_of(config, all, ring, base) {
        Err(e) => Err(e),
        Ok(toc) => if check {
            Ok(checked(toc))
        } else {
            formatted(toc, format)
        },
    }
}

proof fn lemma_listed_grows(list: Seq<SectionModel>, n: nat, m: nat)
    requires
        n <= m,
    ensures
        listed_total(list, n) <= listed_total(list, m),
    decreases m,
{
    if n < m {
        lemma_listed_grows(list, n, (m - 1) as nat);
    }
}

proof fn lemma_found_entries(terms: Seq<Seq<char>>, all: Seq<FileModel>, base: Seq<char>)
    ensures
        found_entries(terms, all, base).len() <= terms.len(),
    decreases terms.len(),
{
    if terms.len() > 0 {
        lemma_found_entries(terms.drop_last(), all, base);
    }
}

proof fn lemma_listed_prefix(a: Seq<SectionModel>, b: Seq<SectionModel>, n: nat)
    requires
        n <= a.len(),
        n <= b.len(),
        forall|i: int| 0 <= i < n ==> a[i] == b[i],
    ensures
        listed_total(a, n) == listed_total(b, n),
    decreases n,
{
    if n > 0 {
        lemma_listed_prefix(a, b, (n - 1) as nat);
    }
}

proof fn lemma_declared_prefix(a: Seq<RingModel>, b: Seq<RingModel>, n: nat)
    requires
        n <= a.len(),
        n <= b.len(),
        forall|i: int| 0 <= i < n ==> a[i] == b[i],
    ensures
        declared_total(a, n) == declared_total(b, n),
    decreases n,
{
    if n > 0 {
        lemma_declared_prefix(a, b, (n - 1) as nat);
    }
}

/// No index lists more of the ring terms than the rings declare.
proof fn lemma_sections_total(
    rings: Seq<RingModel>,
    ring: Option<u32>,
    all: Seq<FileModel>,
    base: Seq<char>,
)
    ensures
        listed_total(
            sections(rings, ring, all, base),
            sections(rings, ring, all, base).len(),
        ) <= declared_total(rings, rings.len()),
    decreases rings.len(),
{
    if rings.len() > 0 {
        let front = sections(rings.drop_last(), ring, all, base);
        let whole = sections(rings, ring, all, base);
        lemma_sections_total(rings.drop_last(), ring, all, base);
        lemma_found_entries(rings.last().terms, all, base);
        lemma_listed_prefix(front, whole, front.len());
        lemma_declared_prefix(rings.drop_last(), rings, (rings.len() - 1) as nat);
    }
}

proof fn lemma_unringed(rings: Seq<RingModel>, all: Seq<FileModel>, base: Seq<char>, n: nat)
    ensures
        unringed_entries(rings, all, base, n).len() <= n,
    decreases n,
{
    if n > 0 {
        lemma_unringed(rings, all, base, (n - 1) as nat);
    }
}

fn check(toc: &Toc) -> (r: TocOutput)
    requires
        index_size(toc@) <= usize::MAX,
    ensures
        r@ == checked(toc@),
{
    let found = problems(toc);
    if found.len() == 0 {
        assert(problems_of(found@).len() == 0);
        let mut count: usize = 0;
        for i in 0..toc.rings.len()
            invariant
                count == listed_total(toc@.rings, i as nat),
                index_size(toc@) <= usize::MAX,
        {
            proof {
                lemma_listed_grows(toc@.rings, (i + 1) as nat, toc@.rings.len());
                assert(toc@.rings[i as int] == toc.rings@[i as int]@);
            }
            let terms = &toc.rings[i].terms;
            count = count + terms.len();
        }
        count = count + toc.unringed.len();
        let mut line = "toc: ".to_string();
        line.append(decimal_text(count as u64).as_str());
        line.append(" term(s), no problems.");
        return TocOutput::Clean(line);
    }
    let ghost all = problem_lines(problems_of(found@));
    let mut list: Vec<String> = Vec::new();
    assert(texts(list@) =~= all.take(0));
    for i in 0..found.len()
        invariant
            all == problem_lines(problems_of(found@)),
            texts(list@) == all.take(i as int),
    {
        let mut line = found[i].term.clone();
        line.append(": ");
        line.append(found[i].message.as_str());
        proof {
            lemma_push_text(list@, line);
            lemma_take_next(all, i as int);
        }
        list.push(line);
    }
    assert(all.take(found@.len() as int) == all);
    assert(problems_of(found@).len() == found@.len());
    let mut line = decimal_text(found.len() as u64);
    line.append(" toc problem(s) found");
    TocOutput::Problems(list, line)
}

/// Build the index and render it, or, with `check`, only look for problems.
pub fn run(
    config: &Config,
    all: &Vec<NodeFile>,
    ring: Option<u32>,
    format: &str,
    base: &str,
    check: bool,
) -> (r: Result<TocOutput, String>)
    requires
        declared_total(by_level(config@.rings), by_level(config@.rings).len()) + all@.len()
            <= usize::MAX,
    ensures
        match r {
            Ok(out) => toc_output(config@, files(all@), ring, format@, base@, check) == Ok::<
                OutputModel,
                Seq<char>,
            >(out@),
            Err(e) => toc_output(config@, files(all@), ring, format@, base@, check) == Err::<
                OutputModel,
                Seq<char>,
            >(e@),
        },
{
    match build(config, all, ring, base) {
        Err(e) => Err(e),
        Ok(toc) => {
            proof {
                let prefix = strip_trailing(base@, "/"@);
                lemma_sections_total(by_level(config@.rings), ring, files(all@), prefix);
                lemma_unringed(by_level(config@.rings), files(all@), prefix, all@.len());
            }
            if check {
                return Ok(self::check(&toc));
            }
            if same(format, "markdown") || same(format, "md") {
                Ok(TocOutput::Markdown(to_markdown(&toc)))
            } else if same(format, "json") {
                Ok(TocOutput::Json(toc))
            } else {
                let mut e = "Unknown toc format '".to_string();
                e.append(format);
                e.append("' (expected \"markdown\" or \"json\")");
                Err(e)
            }
        },
    }
}

// ---------------------------------------------------------------------------
// Laws
// ---------------------------------------------------------------------------

/// Where steps lead: `..` goes up, anything else down.
pub open spec fn walk(from: Seq<Seq<char>>, parts: Seq<Seq<char>>) -> Seq<Seq<char>>
    decreases parts.len(),
{
    if parts.len() == 0 {
        from
    } else {
        let at = walk(from, parts.drop_last());
        if parts.last() == ".."@ {
            if at.len() == 0 {
                at
            } else {
                at.drop_last()
            }
        } else {
            at.push(parts.last())
        }
    }
}

proof fn lemma_shared(from: Seq<Seq<char>>, to: Seq<Seq<char>>)
    ensures
        shared_start(from, to) <= from.len(),
        shared_start(from, to) <= to.len(),
        from.take(shared_start(from, to) as int) == to.take(shared_start(from, to) as int),
    decreases from.len(),
{
    if from.len() > 0 && to.len() > 0 && from[0] == to[0] {
        lemma_shared(from.skip(1), to.skip(1));
        let n = shared_start(from.skip(1), to.skip(1)) as int;
        assert(from.take(n + 1) =~= seq![from[0]] + from.skip(1).take(n));
        assert(to.take(n + 1) =~= seq![to[0]] + to.skip(1).take(n));
    } else {
        assert(from.take(0) =~= to.take(0));
    }
}

proof fn lemma_shared_all(parts: Seq<Seq<char>>)
    ensures
        shared_start(parts, parts) == parts.len(),
    decreases parts.len(),
{
    if parts.len() > 0 {
        lemma_shared_all(parts.skip(1));
    }
}

proof fn lemma_walk_up(from: Seq<Seq<char>>, k: nat)
    requires
        k <= from.len(),
    ensures
        walk(from, Seq::new(k, |i: int| ".."@)) == from.take(from.len() - k),
    decreases k,
{
    let ups = Seq::new(k, |i: int| ".."@);
    if k > 0 {
        lemma_walk_up(from, (k - 1) as nat);
        assert(ups.drop_last() =~= Seq::new((k - 1) as nat, |i: int| ".."@));
        assert(from.take(from.len() - (k - 1)).drop_last() =~= from.take(from.len() - k));
    } else {
        assert(from.take(from.len() as int) =~= from);
    }
}

proof fn lemma_walk_down(
    from: Seq<Seq<char>>,
    first: Seq<Seq<char>>,
    down: Seq<Seq<char>>,
)
    requires
        forall|i: int| 0 <= i < down.len() ==> #[trigger] down[i] != ".."@,
    ensures
        walk(from, first + down) == walk(from, first) + down,
    decreases down.len(),
{
    let whole = first + down;
    if down.len() > 0 {
        let front = down.drop_last();
        assert forall|i: int| 0 <= i < front.len() implies #[trigger] front[i] != ".."@ by {
            assert(front[i] == down[i]);
        }
        lemma_walk_down(from, first, front);
        assert(whole.drop_last() =~= first + front);
        assert(down[down.len() - 1] != ".."@);
        assert(walk(from, first) + down =~= (walk(from, first) + front).push(down.last()));
    } else {
        assert(whole =~= first);
        assert(walk(from, first) + down =~= walk(from, first));
    }
}

/// Links stay live: the relative path from one directory to another, taken
/// from the first, leads to the second.
pub proof fn a_relative_path_leads_there(from: Seq<Seq<char>>, to: Seq<Seq<char>>)
    requires
        forall|i: int| 0 <= i < to.len() ==> #[trigger] to[i] != ".."@,
    ensures
        walk(from, steps(from, to)) == to,
{
    lemma_shared(from, to);
    let n = shared_start(from, to);
    let ups = Seq::new((from.len() - n) as nat, |i: int| ".."@);
    let down = to.skip(n as int);
    lemma_walk_up(from, (from.len() - n) as nat);
    assert forall|i: int| 0 <= i < down.len() implies #[trigger] down[i] != ".."@ by {
        assert(down[i] == to[i + n]);
    }
    lemma_walk_down(from, ups, down);
    assert(from.take(n as int) + down =~= to);
}

/// The relative path from a directory to itself is `.`.
pub proof fn the_same_directory_is_a_dot(from: Seq<char>, to: Seq<char>)
    requires
        components(from) == components(to),
    ensures
        path_between(from, to) == "."@,
{
    lemma_shared_all(components(from));
    assert(components(to).skip(components(to).len() as int).len() == 0);
}

/// The text ends in a line break.
spec fn broken(s: Seq<char>) -> bool {
    s.len() > 0 && s.last() == '\n'
}

proof fn lemma_one_break(s: Seq<char>)
    requires
        broken(s),
    ensures
        broken(one_break(s)),
        !ends(one_break(s), "\n\n"@),
    decreases s.len(),
{
    reveal_strlit("\n\n");
    if ends(s, "\n\n"@) {
        assert(s.skip(s.len() - 2)[0] == s[s.len() - 2]);
        assert(s.drop_last().last() == '\n');
        lemma_one_break(s.drop_last());
    }
}

proof fn lemma_section_breaks(base: Seq<char>, r: SectionModel)
    ensures
        broken(section_text(base, r)),
{
    reveal_strlit("\n\n");
    reveal_strlit("\n");
    reveal_strlit("");
    let head = "## Ring "@ + decimal(r.level as nat) + " — "@ + r.name + "\n\n"@;
    assert(head.last() == '\n');
    let opening = head + paragraph(r.description);
    assert(broken(opening));
    if r.terms.len() == 0 && r.missing.len() == 0 {
        assert(section_text(base, r) =~= opening);
    } else {
        assert(section_text(base, r).last() == '\n');
    }
}

proof fn lemma_sections_break(base: Seq<char>, list: Seq<SectionModel>, n: nat)
    requires
        n <= list.len(),
    ensures
        n > 0 ==> broken(sections_text(base, list, n)),
        n == 0 ==> sections_text(base, list, n).len() == 0,
{
    if n > 0 {
        lemma_section_breaks(base, list[n - 1]);
        assert(sections_text(base, list, n).last() == section_text(base, list[n - 1]).last());
    }
}

/// An index ends in one line break, and not in more.
pub proof fn an_index_ends_in_one_break(toc: TocModel)
    ensures
        markdown_of(toc).len() > 0,
        markdown_of(toc).last() == '\n',
        !ends(markdown_of(toc), "\n\n"@),
{
    reveal_strlit("\n\n");
    reveal_strlit("\n");
    let head = "# "@ + toc.name + "\n\n"@;
    assert(head.last() == '\n');
    let opening = head + paragraph(toc.description);
    assert(broken(opening));
    let sections = sections_text(toc.base, toc.rings, toc.rings.len());
    lemma_sections_break(toc.base, toc.rings, toc.rings.len());
    let rings = opening + sections;
    assert(broken(rings)) by {
        if sections.len() == 0 {
            assert(rings =~= opening);
        }
    }
    let whole = rings + unringed_text(toc.unringed);
    assert(broken(whole)) by {
        if toc.unringed.len() == 0 {
            assert(whole =~= rings);
        } else {
            assert(unringed_text(toc.unringed).last() == '\n');
        }
    }
    lemma_one_break(whole);
}

/// A list of entries has one for a term.
pub open spec fn lists(list: Seq<IndexModel>, term: Seq<char>) -> bool {
    exists|i: int| 0 <= i < list.len() && (#[trigger] list[i]).term == term
}

/// Some section of an index has an entry for a term.
pub open spec fn in_a_section(list: Seq<SectionModel>, term: Seq<char>) -> bool {
    exists|i: int| 0 <= i < list.len() && lists((#[trigger] list[i]).terms, term)
}

proof fn lemma_file_of(all: Seq<FileModel>, i: int)
    requires
        0 <= i < all.len(),
    ensures
        file_of(all, all[i].term) is Some,
    decreases all.len(),
{
    if i > 0 {
        assert(all.skip(1)[i - 1] == all[i]);
        lemma_file_of(all.skip(1), i - 1);
    }
}

proof fn lemma_lists_push(list: Seq<IndexModel>, e: IndexModel, term: Seq<char>)
    ensures
        lists(list.push(e), term) == (lists(list, term) || e.term == term),
{
    let more = list.push(e);
    if lists(list, term) {
        let i = choose|i: int| 0 <= i < list.len() && (#[trigger] list[i]).term == term;
        assert(more[i].term == term);
    }
    if e.term == term {
        assert(more[list.len() as int].term == term);
    }
    if lists(more, term) {
        let i = choose|i: int| 0 <= i < more.len() && (#[trigger] more[i]).term == term;
        if i < list.len() {
            assert(list[i].term == term);
        }
    }
}

proof fn lemma_found_lists(
    terms: Seq<Seq<char>>,
    all: Seq<FileModel>,
    base: Seq<char>,
    term: Seq<char>,
)
    ensures
        lists(found_entries(terms, all, base), term) == (terms.contains(term) && file_of(
            all,
            term,
        ) is Some),
    decreases terms.len(),
{
    if terms.len() > 0 {
        let front = terms.drop_last();
        lemma_found_lists(front, all, base, term);
        lemma_contains_last(terms, term);
        if let Some(f) = file_of(all, terms.last()) {
            lemma_lists_push(
                found_entries(front, all, base),
                entry_in(terms.last(), f.content, base),
                term,
            );
        }
    }
}

proof fn lemma_missing(terms: Seq<Seq<char>>, all: Seq<FileModel>, term: Seq<char>)
    ensures
        missing_terms(terms, all).contains(term) == (terms.contains(term) && file_of(
            all,
            term,
        ) is None),
    decreases terms.len(),
{
    if terms.len() > 0 {
        let front = terms.drop_last();
        lemma_missing(front, all, term);
        lemma_contains_last(terms, term);
        if file_of(all, terms.last()) is None {
            let more = missing_terms(front, all).push(terms.last());
            lemma_contains_last(more, term);
            assert(more.drop_last() =~= missing_terms(front, all));
        }
    }
}

proof fn lemma_sections(
    rings: Seq<RingModel>,
    all: Seq<FileModel>,
    base: Seq<char>,
    i: int,
)
    requires
        0 <= i < rings.len(),
    ensures
        sections(rings, None, all, base).len() == rings.len(),
        sections(rings, None, all, base)[i] == section_of(rings[i], all, base),
    decreases rings.len(),
{
    if rings.len() == 1 {
        assert(sections(rings.drop_last(), None, all, base) =~= Seq::<SectionModel>::empty());
    } else {
        let k = if i < rings.len() - 1 {
            i
        } else {
            0
        };
        lemma_sections(rings.drop_last(), all, base, k);
    }
}

proof fn lemma_unringed_lists(
    rings: Seq<RingModel>,
    all: Seq<FileModel>,
    base: Seq<char>,
    n: nat,
    i: int,
)
    requires
        n <= all.len(),
        0 <= i < n,
        !declared(rings, all[i].term),
    ensures
        lists(unringed_entries(rings, all, base, n), all[i].term),
    decreases n,
{
    let front = unringed_entries(rings, all, base, (n - 1) as nat);
    let f = all[n - 1];
    if i < n - 1 {
        lemma_unringed_lists(rings, all, base, (n - 1) as nat, i);
    }
    if !declared(rings, f.term) {
        lemma_lists_push(front, entry_in(f.term, f.content, base), all[i].term);
    }
}

/// Every node is in an index of the whole ontology: in the section of a ring,
/// or among the unringed.
pub proof fn every_node_is_indexed(
    config: ConfigModel,
    all: Seq<FileModel>,
    base: Seq<char>,
    i: int,
)
    requires
        0 <= i < all.len(),
    ensures
        toc_of(config, all, None, base) is Ok,
        ({
            let toc = toc_of(config, all, None, base)->Ok_0;
            in_a_section(toc.rings, all[i].term) || lists(toc.unringed, all[i].term)
        }),
{
    let prefix = strip_trailing(base, "/"@);
    let rings = by_level(config.rings);
    let term = all[i].term;
    if declared(rings, term) {
        let j = choose|j: int| 0 <= j < rings.len() && (#[trigger] rings[j]).terms.contains(term);
        lemma_file_of(all, i);
        lemma_found_lists(rings[j].terms, all, prefix, term);
        lemma_sections(rings, all, prefix, j);
        assert(lists(sections(rings, None, all, prefix)[j].terms, term));
    } else {
        lemma_unringed_lists(rings, all, prefix, all.len(), i);
    }
}

/// A term that a ring declares is listed in its section when it has a node,
/// and among the missing when it has none.
pub proof fn a_declared_term_is_listed_or_missing(
    ring: RingModel,
    all: Seq<FileModel>,
    base: Seq<char>,
    term: Seq<char>,
)
    requires
        ring.terms.contains(term),
    ensures
        lists(section_of(ring, all, base).terms, term) == (file_of(all, term) is Some),
        section_of(ring, all, base).missing.contains(term) == (file_of(all, term) is None),
{
    lemma_found_lists(ring.terms, all, base, term);
    lemma_missing(ring.terms, all, term);
}

/// The terms listed have a lay definition that opens with a plain sentence.
pub open spec fn all_defined(list: Seq<IndexModel>) -> bool {
    forall|i: int| 0 <= i < list.len() ==> definition_fault(#[trigger] list[i]) is None
}

/// A section lists only defined terms and misses none.
pub open spec fn section_clean(s: SectionModel) -> bool {
    all_defined(s.terms) && s.missing.len() == 0
}

proof fn lemma_entry_problems(list: Seq<IndexModel>, n: nat)
    requires
        n <= list.len(),
    ensures
        (entry_problems(list, n).len() == 0) == all_defined(list.take(n as int)),
    decreases n,
{
    if n > 0 {
        lemma_entry_problems(list, (n - 1) as nat);
        let now = list.take(n as int);
        let before = list.take(n - 1);
        assert(now[n - 1] == list[n - 1]);
        if all_defined(now) {
            assert forall|i: int| 0 <= i < before.len() implies definition_fault(
                #[trigger] before[i],
            ) is None by {
                assert(before[i] == now[i]);
            }
        }
        if all_defined(before) && definition_fault(list[n - 1]) is None {
            assert forall|i: int| 0 <= i < now.len() implies definition_fault(
                #[trigger] now[i],
            ) is None by {
                if i < n - 1 {
                    assert(now[i] == before[i]);
                }
            }
        }
    }
}

proof fn lemma_section_problems(base: Seq<char>, list: Seq<SectionModel>, n: nat)
    requires
        n <= list.len(),
    ensures
        (section_problems(base, list, n).len() == 0) == (forall|i: int|
            0 <= i < n ==> section_clean(#[trigger] list[i])),
    decreases n,
{
    if n > 0 {
        lemma_section_problems(base, list, (n - 1) as nat);
        let r = list[n - 1];
        lemma_entry_problems(r.terms, r.terms.len());
        assert(r.terms.take(r.terms.len() as int) == r.terms);
        assert(section_problems(base, list, n).len() == section_problems(
            base,
            list,
            (n - 1) as nat,
        ).len() + entry_problems(r.terms, r.terms.len()).len() + r.missing.len());
        assert(section_clean(r) == (entry_problems(r.terms, r.terms.len()).len() == 0
            && r.missing.len() == 0));
    }
}

proof fn lemma_unringed_problems(list: Seq<IndexModel>, n: nat)
    ensures
        unringed_problems(list, n).len() >= n,
        n == 0 ==> unringed_problems(list, n).len() == 0,
    decreases n,
{
    if n > 0 {
        lemma_unringed_problems(list, (n - 1) as nat);
    }
}

/// An index has no problems exactly when every node opens with a plain
/// sentence, every ring term has a node, and every node is in a ring.
pub proof fn an_index_without_problems_is_whole(toc: TocModel)
    ensures
        (toc_problems(toc).len() == 0) == (toc.unringed.len() == 0 && forall|i: int|
            0 <= i < toc.rings.len() ==> section_clean(#[trigger] toc.rings[i])),
{
    lemma_section_problems(toc.base, toc.rings, toc.rings.len());
    lemma_unringed_problems(toc.unringed, toc.unringed.len());
}

}
