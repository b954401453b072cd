//! Validation of ontology nodes.
//!
//! Errors:
//! - Title (`# Term`) is required
//! - Ontology, Axiology and Epistemology sections are required
//! - Broken links: references to `./term.md` where `src/term.md` doesn't exist
//!
//! Warnings, which never fail a run:
//! - Ontology `###` subsections outside `Pattern` | `Senses` (the pattern-node
//!   shape)
//! - Epistemology `###` subsections outside the recognized vocabulary
//! - Link titles outside `broader` | `narrower` | `related`
//! - A link target typed both broader and narrower

use vstd::prelude::*;
use vstd::string::*;

use crate::markdown::{
    extract_typed_links, files, heading_line, is_heading, is_title, link_terms, links_of,
    title_line, typed_links, FileModel, LinkModel, NodeFile, Relation, TypedLink,
};
use crate::number::{decimal, long_decimal_text};
use crate::order::{lemma_sorted_set, sort_set, sort_texts, sorted, sorted_set};
use crate::text::{
    char_texts, chars_of, contains, contains_text, find, has, head, first_of, lemma_first_of,
    lemma_push_text, lemma_take_next, lines, lines_of, opt_text, same, starts, starts_with,
    strip_leading, stripped_leading, tail, text_of, texts, trim, trimmed,
};

verus! {

/// Lint result for a single node file.
#[derive(Debug)]
pub struct LintResult {
    pub file: String,
    pub errors: Vec<String>,
    pub warnings: Vec<String>,
}

/// What a result says.
pub struct ResultModel {
    pub file: Seq<char>,
    pub errors: Seq<Seq<char>>,
    pub warnings: Seq<Seq<char>>,
}

impl View for LintResult {
    type V = ResultModel;

    open spec fn view(&self) -> ResultModel {
        ResultModel {
            file: self.file@,
            errors: texts(self.errors@),
            warnings: texts(self.warnings@),
        }
    }
}

/// What a list of results says.
pub open spec fn results_of(list: Seq<LintResult>) -> Seq<ResultModel> {
    Seq::new(list.len(), |i: int| list[i]@)
}

/// Findings for one node: errors fail the run, warnings are advisory.
#[derive(Debug)]
pub struct LintFindings {
    pub errors: Vec<String>,
    pub warnings: Vec<String>,
}

/// What the findings for a node say.
pub struct FindingsModel {
    pub errors: Seq<Seq<char>>,
    pub warnings: Seq<Seq<char>>,
}

impl View for LintFindings {
    type V = FindingsModel;

    open spec fn view(&self) -> FindingsModel {
        FindingsModel { errors: texts(self.errors@), warnings: texts(self.warnings@) }
    }
}

// ---------------------------------------------------------------------------
// Subsections
// ---------------------------------------------------------------------------

/// A text with its markdown links replaced by their link texts, up to the
/// first `[` that no complete link follows.
pub open spec fn unlinked(s: Seq<char>) -> Seq<char>
    decreases s.len(),
    via unlinked_decreases
{
    match first_of(s, "["@) {
        None => s,
        Some(open) => match first_of(s.skip(open), "]("@) {
            None => s,
            Some(close) => match first_of(s.skip(open + close), ")"@) {
                None => s,
                Some(end) => s.take(open) + s.subrange(open + 1, open + close) + unlinked(
                    s.skip(open + close + end + 1),
                ),
            },
        },
    }
}

#[via_fn]
proof fn unlinked_decreases(s: Seq<char>) {
    reveal_strlit("[");
    reveal_strlit("](");
    reveal_strlit(")");
    lemma_first_of(s, "["@);
    if let Some(open) = first_of(s, "["@) {
        lemma_first_of(s.skip(open), "]("@);
        if let Some(close) = first_of(s.skip(open), "]("@) {
            lemma_first_of(s.skip(open + close), ")"@);
        }
    }
}

/// A heading line reduced to comparable text: without its `#` marker, markdown
/// links and surrounding white space.
pub open spec fn heading_text(line: Seq<char>) -> Seq<char> {
    trim(unlinked(trim(strip_leading(trim(line), "#"@))))
}

/// Reduce a heading line to comparable text: strip the `###` marker, markdown
/// links (`[Pattern](./pattern.md) Expression` -> `Pattern Expression`), and
/// surrounding whitespace.
pub fn normalize_heading(line: &str) -> (r: String)
    ensures
        r@ == heading_text(line@),
{
    let cs = chars_of(line);
    let text = trimmed(stripped_leading(trimmed(cs.as_slice()), "#"));
    let mut out: Vec<char> = Vec::new();
    let mut rest = text;
    let mut done = false;
    assert(out@ + unlinked(rest@) =~= unlinked(text@));
    while !done
        invariant
            done ==> out@ + rest@ == unlinked(text@),
            !done ==> out@ + unlinked(rest@) == unlinked(text@),
        decreases rest@.len(), !done as int,
    {
        match find(rest, "[") {
            None => {
                done = true;
            },
            Some(open) => match find(tail(rest, open), "](") {
                None => {
                    done = true;
                },
                Some(shut) => match find(tail(tail(rest, open), shut), ")") {
                    None => {
                        assert(rest@.skip(open as int).skip(shut as int) =~= rest@.skip(open + shut));
                        done = true;
                    },
                    Some(end) => {
                        let ghost whole = rest@;
                        proof {
                            reveal_strlit("[");
                            reveal_strlit("](");
                            reveal_strlit(")");
                            lemma_first_of(whole, "["@);
                            lemma_first_of(whole.skip(open as int), "]("@);
                            lemma_first_of(whole.skip(open + shut), ")"@);
                            assert(whole.skip(open as int).skip(shut as int) =~= whole.skip(
                                open + shut,
                            ));
                        }
                        let from_open = tail(rest, open);
                        assert(from_open@[0] == '[') by {
                            assert(whole.subrange(open as int, open + 1)[0] == "["@[0]);
                        }
                        assert(shut >= 1) by {
                            if shut == 0 {
                                assert(from_open@.subrange(0, 2)[0] == "]("@[0]);
                            }
                        }
                        let inner = tail(head(from_open, shut), 1);
                        let before = head(rest, open);
                        let ghost start = out@;
                        push_all(&mut out, before);
                        push_all(&mut out, inner);
                        let after = tail(tail(from_open, shut), end);
                        rest = tail(after, 1);
                        proof {
                            assert(inner@ =~= whole.subrange(open + 1, open + shut));
                            assert(rest@ =~= whole.skip(open + shut + end + 1));
                            assert(out@ + unlinked(rest@) =~= start + unlinked(whole));
                        }
                    },
                },
            },
        }
    }
    push_all(&mut out, rest);
    text_of(trimmed(out.as_slice()))
}

fn push_all(out: &mut Vec<char>, more: &[char])
    ensures
        final(out)@ == old(out)@ + more@,
{
    let ghost start = out@;
    for i in 0..more.len()
        invariant
            out@ == start + more@.take(i as int),
    {
        proof {
            lemma_take_next(more@, i as int);
        }
        out.push(more[i]);
        assert(out@ =~= start + more@.take(i + 1));
    }
    assert(more@.take(more@.len() as int) == more@);
}

/// The section with a subsection vocabulary that a heading names.
pub open spec fn listed_section(heading: Seq<char>) -> Option<Seq<char>> {
    if has(heading, "Ontology"@) {
        Some("Ontology"@)
    } else if has(heading, "Epistemology"@) {
        Some("Epistemology"@)
    } else {
        None
    }
}

/// A subsection heading of a section's vocabulary. A pattern node carries the
/// invariant and its per-scale senses under Ontology.
pub open spec fn recognized(section: Seq<char>, heading: Seq<char>) -> bool {
    if section == "Ontology"@ {
        heading == "Pattern"@ || heading == "Senses"@
    } else {
        heading == "Cultural Definition"@ || heading == "Sources"@ || heading
            == "Pattern Expression"@ || heading == "Examples"@
    }
}

/// The vocabulary of a section as it is named in a warning.
pub open spec fn vocabulary(section: Seq<char>) -> Seq<char> {
    if section == "Ontology"@ {
        "Pattern, Senses"@
    } else {
        "Cultural Definition | Sources, Pattern Expression | Examples"@
    }
}

/// The listed section that the end of a text stands in.
pub open spec fn section_at_end(ls: Seq<Seq<char>>) -> Option<Seq<char>>
    decreases ls.len(),
{
    if ls.len() == 0 {
        None
    } else if starts(trim(ls.last()), "## "@) {
        listed_section(trim(ls.last()))
    } else {
        section_at_end(ls.drop_last())
    }
}

/// The warning about a subsection heading outside its section's vocabulary.
pub open spec fn subsection_warning(section: Seq<char>, heading: Seq<char>) -> Seq<char> {
    "Non-standard "@ + section + " subsection `"@ + heading + "` — recognized vocabulary: "@
        + vocabulary(section)
}

/// The warnings about subsections, in the order of the lines.
pub open spec fn subsection_warnings(ls: Seq<Seq<char>>) -> Seq<Seq<char>>
    decreases ls.len(),
{
    if ls.len() == 0 {
        Seq::empty()
    } else {
        let front = subsection_warnings(ls.drop_last());
        let line = ls.last();
        match section_at_end(ls) {
            Some(section) => if starts(trim(line), "### "@) && !starts(trim(line), "## "@)
                && !recognized(section, heading_text(trim(line))) {
                front.push(subsection_warning(section, heading_text(trim(line))))
            } else {
                front
            },
            None => front,
        }
    }
}

fn recognizes(section: &str, heading: &str) -> (r: bool)
    ensures
        r == recognized(section@, heading@),
{
    if same(section, "Ontology") {
        same(heading, "Pattern") || same(heading, "Senses")
    } else {
        same(heading, "Cultural Definition") || same(heading, "Sources") || same(
            heading,
            "Pattern Expression",
        ) || same(heading, "Examples")
    }
}

/// Warn on `###` headings that fall outside the recognized subsection
/// vocabulary of the `##` section they sit under. Sections without a
/// vocabulary (Axiology, Ethics) accept any subsection silently.
pub fn check_subsections(content: &str) -> (r: Vec<String>)
    ensures
        texts(r@) == subsection_warnings(lines(content@)),
{
    let cs = chars_of(content);
    let ls = lines_of(cs.as_slice());
    let ghost all = char_texts(ls@);
    let mut r: Vec<String> = Vec::new();
    let mut current: Option<String> = None;
    assert(texts(r@) =~= subsection_warnings(all.take(0)));
    for i in 0..ls.len()
        invariant
            all == char_texts(ls@),
            texts(r@) == subsection_warnings(all.take(i as int)),
            current is Some == section_at_end(all.take(i as int)) is Some,
            current is Some ==> Some(current->Some_0@) == section_at_end(all.take(i as int)),
    {
        assert(all.take(i + 1).drop_last() == all.take(i as int));
        assert(all.take(i + 1).last() == ls@[i as int]@);
        let t = trimmed(ls[i].as_slice());
        if starts_with(t, "## ") {
            current =
            if contains(t, "Ontology") {
                Some("Ontology".to_string())
            } else if contains(t, "Epistemology") {
                Some("Epistemology".to_string())
            } else {
                None
            };
        } else if let Some(section) = &current {
            if starts_with(t, "### ") {
                let heading = normalize_heading(text_of(t).as_str());
                if !recognizes(section.as_str(), heading.as_str()) {
                    let mut w = "Non-standard ".to_string();
                    w.append(section.as_str());
                    w.append(" subsection `");
                    w.append(heading.as_str());
                    w.append("` — recognized vocabulary: ");
                    w.append(
                        if same(section.as_str(), "Ontology") {
                            "Pattern, Senses"
                        } else {
                            "Cultural Definition | Sources, Pattern Expression | Examples"
                        },
                    );
                    proof {
                        lemma_push_text(r@, w);
                    }
                    r.push(w);
                }
            }
        }
    }
    assert(all.take(ls@.len() as int) == all);
    r
}

// ---------------------------------------------------------------------------
// Links
// ---------------------------------------------------------------------------

/// The warning about a link title that is no relation.
pub open spec fn title_warning(term: Seq<char>, title: Seq<char>) -> Seq<char> {
    "Unknown link title `"@ + title + "` on ["@ + term + "](./"@ + term
        + ".md) — recognized relations: broader | narrower | related"@
}

/// The warnings about link titles, in the order of the links.
pub open spec fn title_warnings(links: Seq<LinkModel>) -> Seq<Seq<char>>
    decreases links.len(),
{
    if links.len() == 0 {
        Seq::empty()
    } else {
        let front = title_warnings(links.drop_last());
        match links.last().unknown_title {
            Some(title) => front.push(title_warning(links.last().term, title)),
            None => front,
        }
    }
}

/// Some link to a term asserts a relation.
pub open spec fn asserts(links: Seq<LinkModel>, term: Seq<char>, relation: Relation) -> bool {
    exists|i: int|
        0 <= i < links.len() && (#[trigger] links[i]).term == term && links[i].relation == relation
}

/// A term linked as both broader and narrower.
pub open spec fn typed_both(links: Seq<LinkModel>, term: Seq<char>) -> bool {
    asserts(links, term, Relation::Broader) && asserts(links, term, Relation::Narrower)
}

/// The warning about a link target typed both broader and narrower.
pub open spec fn conflict_warning(term: Seq<char>) -> Seq<char> {
    "["@ + term + "](./"@ + term + ".md) is typed both broader and narrower"@
}

/// The warnings about targets typed both ways, in the order of the terms.
pub open spec fn conflict_warnings(
    links: Seq<LinkModel>,
    terms: Seq<Seq<char>>,
) -> Seq<Seq<char>>
    decreases terms.len(),
{
    if terms.len() == 0 {
        Seq::empty()
    } else {
        let front = conflict_warnings(links, terms.drop_last());
        if typed_both(links, terms.last()) {
            front.push(conflict_warning(terms.last()))
        } else {
            front
        }
    }
}

/// The warnings about the links of a node.
pub open spec fn link_warnings(links: Seq<LinkModel>) -> Seq<Seq<char>> {
    title_warnings(links) + conflict_warnings(links, sorted_set(link_terms(links)))
}

fn has_relation(links: &Vec<TypedLink>, term: &str, relation: Relation) -> (r: bool)
    ensures
        r == asserts(links_of(links@), term@, relation),
{
    let ghost all = links_of(links@);
    for i in 0..links.len()
        invariant
            all == links_of(links@),
            forall|j: int|
                0 <= j < i ==> !((#[trigger] all[j]).term == term@ && all[j].relation == relation),
    {
        assert(all[i as int] == links@[i as int]@);
        if links[i].relation == relation && same(links[i].term.as_str(), term) {
            return true;
        }
    }
    false
}

fn linked_terms(links: &Vec<TypedLink>) -> (r: Vec<String>)
    ensures
        texts(r@) == sorted_set(link_terms(links_of(links@))),
{
    let ghost all = link_terms(links_of(links@));
    let mut r: Vec<String> = Vec::new();
    assert(texts(r@) =~= all.take(0));
    for i in 0..links.len()
        invariant
            all == link_terms(links_of(links@)),
            texts(r@) == all.take(i as int),
    {
        proof {
            lemma_push_text(r@, links@[i as int].term);
            lemma_take_next(all, i as int);
        }
        r.push(links[i].term.clone());
    }
    assert(all.take(links@.len() as int) == all);
    sort_set(&r)
}

/// Warn on link titles that are no relation, and on targets typed both
/// broader and narrower.
pub fn check_links(links: &Vec<TypedLink>) -> (r: Vec<String>)
    ensures
        texts(r@) == link_warnings(links_of(links@)),
{
    let ghost all = links_of(links@);
    let mut r: Vec<String> = Vec::new();
    assert(texts(r@) =~= title_warnings(all.take(0)));
    for i in 0..links.len()
        invariant
            all == links_of(links@),
            texts(r@) == title_warnings(all.take(i as int)),
    {
        assert(all.take(i + 1).drop_last() == all.take(i as int));
        assert(all.take(i + 1).last() == links@[i as int]@);
        if let Some(title) = &links[i].unknown_title {
            let term = links[i].term.as_str();
            let mut w = "Unknown link title `".to_string();
            w.append(title.as_str());
            w.append("` on [");
            w.append(term);
            w.append("](./");
            w.append(term);
            w.append(".md) — recognized relations: broader | narrower | related");
            proof {
                lemma_push_text(r@, w);
            }
            r.push(w);
        }
    }
    assert(all.take(links@.len() as int) == all);
    let terms = linked_terms(links);
    let ghost titles = texts(r@);
    let ghost names = texts(terms@);
    assert(titles + conflict_warnings(all, names.take(0)) =~= titles);
    for i in 0..terms.len()
        invariant
            all == links_of(links@),
            names == texts(terms@),
            texts(r@) == titles + conflict_warnings(all, names.take(i as int)),
    {
        assert(names.take(i + 1).drop_last() == names.take(i as int));
        assert(names.take(i + 1).last() == terms@[i as int]@);
        let term = terms[i].as_str();
        if has_relation(links, term, Relation::Broader) && has_relation(
            links,
            term,
            Relation::Narrower,
        ) {
            let mut w = "[".to_string();
            w.append(term);
            w.append("](./");
            w.append(term);
            w.append(".md) is typed both broader and narrower");
            proof {
                lemma_push_text(r@, w);
            }
            r.push(w);
            assert(texts(r@) =~= titles + conflict_warnings(all, names.take(i + 1)));
        }
    }
    assert(names.take(terms@.len() as int) == names);
    r
}

/// The error about a link to a node that does not exist.
pub open spec fn broken_link(link: Seq<char>, filename: Seq<char>) -> Seq<char> {
    "Broken link: ["@ + link + "](./"@ + link + ".md) — file src/"@ + link
        + ".md not found (referenced in "@ + filename + ")"@
}

/// The errors about broken links, in the order of the terms.
pub open spec fn broken_links(
    terms: Seq<Seq<char>>,
    existing: Seq<Seq<char>>,
    filename: Seq<char>,
) -> Seq<Seq<char>>
    decreases terms.len(),
{
    if terms.len() == 0 {
        Seq::empty()
    } else {
        let front = broken_links(terms.drop_last(), existing, filename);
        if existing.contains(terms.last()) {
            front
        } else {
            front.push(broken_link(terms.last(), filename))
        }
    }
}

// ---------------------------------------------------------------------------
// A node
// ---------------------------------------------------------------------------

/// Some line is a title.
pub open spec fn has_title(ls: Seq<Seq<char>>) -> bool {
    exists|i: int| 0 <= i < ls.len() && is_title(#[trigger] ls[i])
}

/// Some line is the heading of a section.
pub open spec fn has_section(ls: Seq<Seq<char>>, name: Seq<char>) -> bool {
    exists|i: int| 0 <= i < ls.len() && section_heading(#[trigger] ls[i], name)
}

/// A line that is the heading of a section.
pub open spec fn section_heading(line: Seq<char>, name: Seq<char>) -> bool {
    is_heading(line) && has(trim(line), name)
}

/// An error when something is absent.
pub open spec fn unless(present: bool, error: Seq<char>) -> Seq<Seq<char>> {
    if present {
        Seq::empty()
    } else {
        seq![error]
    }
}

/// The errors about the parts that a node must have.
pub open spec fn missing_parts(ls: Seq<Seq<char>>) -> Seq<Seq<char>> {
    unless(has_title(ls), "Missing title (# Term)"@) + unless(
        has_section(ls, "Ontology"@),
        "Missing required section: ## [Ontology]"@,
    ) + unless(
        has_section(ls, "Axiology"@),
        "Missing required section: ## [Axiology]"@,
    ) + unless(
        has_section(ls, "Epistemology"@),
        "Missing required section: ## [Epistemology]"@,
    )
}

/// The findings for a node with the given links.
pub open spec fn findings_with(
    content: Seq<char>,
    links: Seq<LinkModel>,
    filename: Seq<char>,
    existing: Seq<Seq<char>>,
) -> FindingsModel {
    FindingsModel {
        errors: missing_parts(lines(content)) + broken_links(
            sorted_set(link_terms(links)),
            existing,
            filename,
        ),
        warnings: subsection_warnings(lines(content)) + link_warnings(links),
    }
}

/// The findings for a node.
pub open spec fn node_findings(
    content: Seq<char>,
    filename: Seq<char>,
    existing: Seq<Seq<char>>,
) -> FindingsModel {
    findings_with(content, typed_links(content), filename, existing)
}

fn any_title(ls: &Vec<Vec<char>>) -> (r: bool)
    ensures
        r == has_title(char_texts(ls@)),
{
    let ghost all = char_texts(ls@);
    for i in 0..ls.len()
        invariant
            all == char_texts(ls@),
            forall|j: int| 0 <= j < i ==> !is_title(#[trigger] all[j]),
    {
        assert(all[i as int] == ls@[i as int]@);
        if title_line(ls[i].as_slice()) {
            return true;
        }
    }
    false
}

fn any_section(ls: &Vec<Vec<char>>, name: &str) -> (r: bool)
    ensures
        r == has_section(char_texts(ls@), name@),
{
    let ghost all = char_texts(ls@);
    for i in 0..ls.len()
        invariant
            all == char_texts(ls@),
            forall|j: int| 0 <= j < i ==> !section_heading(#[trigger] all[j], name@),
    {
        assert(all[i as int] == ls@[i as int]@);
        if heading_line(ls[i].as_slice()) && contains(trimmed(ls[i].as_slice()), name) {
            return true;
        }
    }
    false
}

fn push_unless(list: &mut Vec<String>, present: bool, error: &str)
    ensures
        texts(final(list)@) == texts(old(list)@) + unless(present, error@),
{
    if present {
        assert(texts(list@) + unless(present, error@) =~= texts(list@));
    } else {
        let e = error.to_string();
        proof {
            lemma_push_text(list@, e);
            assert(texts(list@).push(error@) =~= texts(list@) + seq![error@]);
        }
        list.push(e);
    }
}

/// Validate a node whose links are given.
pub fn lint_with_links(
    content: &str,
    links: &Vec<TypedLink>,
    filename: &str,
    existing_terms: &Vec<String>,
) -> (r: LintFindings)
    ensures
        r@ == findings_with(content@, links_of(links@), filename@, texts(existing_terms@)),
{
    let cs = chars_of(content);
    let ls = lines_of(cs.as_slice());
    let mut errors: Vec<String> = Vec::new();
    let ghost parts = missing_parts(lines(content@));
    push_unless(&mut errors, any_title(&ls), "Missing title (# Term)");
    push_unless(
        &mut errors,
        any_section(&ls, "Ontology"),
        "Missing required section: ## [Ontology]",
    );
    push_unless(
        &mut errors,
        any_section(&ls, "Axiology"),
        "Missing required section: ## [Axiology]",
    );
    push_unless(
        &mut errors,
        any_section(&ls, "Epistemology"),
        "Missing required section: ## [Epistemology]",
    );
    assert(texts(errors@) =~= parts);
    let terms = linked_terms(links);
    let ghost names = texts(terms@);
    let ghost existing = texts(existing_terms@);
    assert(parts + broken_links(names.take(0), existing, filename@) =~= parts);
    for i in 0..terms.len()
        invariant
            names == texts(terms@),
            existing == texts(existing_terms@),
            texts(errors@) == parts + broken_links(names.take(i as int), existing, filename@),
    {
        assert(names.take(i + 1).drop_last() == names.take(i as int));
        assert(names.take(i + 1).last() == terms@[i as int]@);
        if !contains_text(existing_terms, terms[i].as_str()) {
            let link = terms[i].as_str();
            let mut e = "Broken link: [".to_string();
            e.append(link);
            e.append("](./");
            e.append(link);
            e.append(".md) — file src/");
            e.append(link);
            e.append(".md not found (referenced in ");
            e.append(filename);
            e.append(")");
            proof {
                lemma_push_text(errors@, e);
            }
            errors.push(e);
            assert(texts(errors@) =~= parts + broken_links(names.take(i + 1), existing, filename@));
        }
    }
    assert(names.take(terms@.len() as int) == names);
    let mut warnings = check_subsections(content);
    let mut more = check_links(links);
    let ghost first = warnings@;
    let ghost second = more@;
    warnings.append(&mut more);
    assert(texts(warnings@) =~= texts(first) + texts(second));
    LintFindings { errors, warnings }
}

/// Validate a node.
pub fn lint_content(content: &str, filename: &str, existing_terms: &Vec<String>) -> (r:
    LintFindings)
    ensures
        r@ == node_findings(content@, filename@, texts(existing_terms@)),
{
    let links = extract_typed_links(content);
    lint_with_links(content, &links, filename, existing_terms)
}

// ---------------------------------------------------------------------------
// All nodes
// ---------------------------------------------------------------------------

/// The file name of a term's node.
pub open spec fn file_name(term: Seq<char>) -> Seq<char> {
    term + ".md"@
}

/// The file names of nodes.
pub open spec fn file_names(all: Seq<FileModel>) -> Seq<Seq<char>> {
    Seq::new(all.len(), |i: int| file_name(all[i].term))
}

/// The terms of nodes.
pub open spec fn node_names(all: Seq<FileModel>) -> Seq<Seq<char>> {
    Seq::new(all.len(), |i: int| all[i].term)
}

/// The content of the first node with a file name.
pub open spec fn content_named(all: Seq<FileModel>, name: Seq<char>) -> Seq<char>
    decreases all.len(),
{
    if all.len() == 0 {
        Seq::empty()
    } else if file_name(all[0].term) == name {
        all[0].content
    } else {
        content_named(all.skip(1), name)
    }
}

/// The results for files given by name: those with a finding.
pub open spec fn file_results(all: Seq<FileModel>, names: Seq<Seq<char>>) -> Seq<ResultModel>
    decreases names.len(),
{
    if names.len() == 0 {
        Seq::empty()
    } else {
        let front = file_results(all, names.drop_last());
        let found = node_findings(content_named(all, names.last()), names.last(), node_names(all));
        if found.errors.len() == 0 && found.warnings.len() == 0 {
            front
        } else {
            front.push(
                ResultModel {
                    file: names.last(),
                    errors: found.errors,
                    warnings: found.warnings,
                },
            )
        }
    }
}

/// The results for all nodes: those with a finding, in the order of the file
/// names.
pub open spec fn lint_results(all: Seq<FileModel>) -> Seq<ResultModel> {
    file_results(all, sorted(file_names(all)))
}

fn place_named(all: &Vec<NodeFile>, name: &str) -> (r: Option<usize>)
    ensures
        match r {
            Some(i) => i < all@.len() && content_named(files(all@), name@)
                == all@[i as int].content@,
            None => content_named(files(all@), name@) == Seq::<char>::empty(),
        },
{
    let ghost every = files(all@);
    assert(every.skip(0) == every);
    for i in 0..all.len()
        invariant
            every == files(all@),
            content_named(every, name@) == content_named(every.skip(i as int), name@),
    {
        assert(every.skip(i as int)[0] == all@[i as int]@);
        assert(every.skip(i as int).skip(1) == every.skip(i + 1));
        let mut file = all[i].term.clone();
        file.append(".md");
        if same(file.as_str(), name) {
            return Some(i);
        }
    }
    assert(every.skip(all@.len() as int) =~= Seq::<FileModel>::empty());
    None
}

/// Lint all nodes: the results that hold an error or a warning, in the order
/// of the file names.
pub fn collect(all: &Vec<NodeFile>) -> (r: Vec<LintResult>)
    ensures
        results_of(r@) == lint_results(files(all@)),
{
    let ghost every = files(all@);
    let mut existing: Vec<String> = Vec::new();
    let mut named: Vec<String> = Vec::new();
    assert(texts(existing@) =~= node_names(every).take(0));
    assert(texts(named@) =~= file_names(every).take(0));
    for i in 0..all.len()
        invariant
            every == files(all@),
            texts(existing@) == node_names(every).take(i as int),
            texts(named@) == file_names(every).take(i as int),
    {
        let mut file = all[i].term.clone();
        file.append(".md");
        proof {
            lemma_push_text(existing@, all@[i as int].term);
            lemma_push_text(named@, file);
            lemma_take_next(node_names(every), i as int);
            lemma_take_next(file_names(every), i as int);
        }
        existing.push(all[i].term.clone());
        named.push(file);
    }
    assert(node_names(every).take(all@.len() as int) == node_names(every));
    assert(file_names(every).take(all@.len() as int) == file_names(every));
    let order = sort_texts(&named);
    let ghost names = texts(order@);
    let mut r: Vec<LintResult> = Vec::new();
    assert(results_of(r@) =~= file_results(every, names.take(0)));
    for i in 0..order.len()
        invariant
            every == files(all@),
            texts(existing@) == node_names(every),
            names == texts(order@),
            results_of(r@) == file_results(every, names.take(i as int)),
    {
        assert(names.take(i + 1).drop_last() == names.take(i as int));
        assert(names.take(i + 1).last() == order@[i as int]@);
        let content = match place_named(all, order[i].as_str()) {
            Some(k) => all[k].content.clone(),
            None => String::new(),
        };
        assert(content@ =~= content_named(every, order@[i as int]@));
        let found = lint_content(content.as_str(), order[i].as_str(), &existing);
        assert(texts(found.errors@).len() == found.errors@.len());
        assert(texts(found.warnings@).len() == found.warnings@.len());
        if found.errors.len() > 0 || found.warnings.len() > 0 {
            let one = LintResult {
                file: order[i].clone(),
                errors: found.errors,
                warnings: found.warnings,
            };
            let ghost before = r@;
            r.push(one);
            assert(results_of(r@) =~= results_of(before).push(one@));
        }
    }
    assert(names.take(order@.len() as int) == names);
    r
}

// ---------------------------------------------------------------------------
// Reports
// ---------------------------------------------------------------------------

/// What a lint run prints, and the error it fails with.
#[derive(Debug)]
pub struct LintReport {
    pub text: String,
    pub failure: Option<String>,
}

/// Lines that begin with a mark.
pub open spec fn marked_lines(mark: Seq<char>, list: Seq<Seq<char>>, n: nat) -> Seq<char>
    decreases n,
{
    if n == 0 {
        Seq::empty()
    } else {
        marked_lines(mark, list, (n - 1) as nat) + mark + list[n - 1] + "\n"@
    }
}

/// A file name, its errors and its warnings.
pub open spec fn result_text(
    file: Seq<char>,
    errors: Seq<Seq<char>>,
    warnings: Seq<Seq<char>>,
) -> Seq<char> {
    file + ":\n"@ + marked_lines("  - "@, errors, errors.len()) + marked_lines(
        "  - warn: "@,
        warnings,
        warnings.len(),
    )
}

/// The first `n` results, each followed by an empty line.
pub open spec fn results_text(list: Seq<ResultModel>, n: nat) -> Seq<char>
    decreases n,
{
    if n == 0 {
        Seq::empty()
    } else {
        results_text(list, (n - 1) as nat) + result_text(
            list[n - 1].file,
            list[n - 1].errors,
            list[n - 1].warnings,
        ) + "\n"@
    }
}

/// How many errors the first `n` results hold.
pub open spec fn error_total(list: Seq<ResultModel>, n: nat) -> nat
    decreases n,
{
    if n == 0 {
        0
    } else {
        error_total(list, (n - 1) as nat) + list[n - 1].errors.len()
    }
}

/// How many warnings the first `n` results hold.
pub open spec fn warning_total(list: Seq<ResultModel>, n: nat) -> nat
    decreases n,
{
    if n == 0 {
        0
    } else {
        warning_total(list, (n - 1) as nat) + list[n - 1].warnings.len()
    }
}

/// How many of the first `n` results hold an error.
pub open spec fn failing_total(list: Seq<ResultModel>, n: nat) -> nat
    decreases n,
{
    if n == 0 {
        0
    } else {
        failing_total(list, (n - 1) as nat) + if list[n - 1].errors.len() > 0 {
            1nat
        } else {
            0nat
        }
    }
}

/// The line that sums a run up.
pub open spec fn closing_line(list: Seq<ResultModel>) -> Seq<char> {
    let n = list.len();
    if error_total(list, n) > 0 {
        decimal(error_total(list, n)) + " error(s) in "@ + decimal(failing_total(list, n))
            + " file(s), "@ + decimal(warning_total(list, n)) + " warning(s).\n"@
    } else if warning_total(list, n) > 0 {
        "All nodes pass lint checks ("@ + decimal(warning_total(list, n)) + " warning(s)).\n"@
    } else {
        "All nodes pass lint checks.\n"@
    }
}

/// The error that a run with so many errors fails with.
pub open spec fn lint_failure(errors: nat) -> Option<Seq<char>> {
    if errors == 0 {
        None
    } else {
        Some(decimal(errors) + " lint error(s) found"@)
    }
}

fn append_marked(out: &mut String, mark: &str, list: &Vec<String>)
    ensures
        final(out)@ == old(out)@ + marked_lines(mark@, texts(list@), list@.len()),
{
    let ghost start = out@;
    assert(start + marked_lines(mark@, texts(list@), 0) =~= start);
    for i in 0..list.len()
        invariant
            out@ == start + marked_lines(mark@, texts(list@), i as nat),
    {
        assert(texts(list@)[i as int] == list@[i as int]@);
        out.append(mark);
        out.append(list[i].as_str());
        out.append("\n");
        assert(out@ =~= start + marked_lines(mark@, texts(list@), (i + 1) as nat));
    }
}

fn append_result(out: &mut String, file: &str, errors: &Vec<String>, warnings: &Vec<String>)
    ensures
        final(out)@ == old(out)@ + result_text(file@, texts(errors@), texts(warnings@)),
{
    let ghost start = out@;
    out.append(file);
    out.append(":\n");
    append_marked(out, "  - ", errors);
    append_marked(out, "  - warn: ", warnings);
    assert(texts(errors@).len() == errors@.len());
    assert(texts(warnings@).len() == warnings@.len());
    assert(out@ =~= start + result_text(file@, texts(errors@), texts(warnings@)));
}

fn failure_of(errors: u128) -> (r: Option<String>)
    ensures
        opt_text(r) == lint_failure(errors as nat),
{
    if errors == 0 {
        None
    } else {
        let mut e = long_decimal_text(errors);
        e.append(" lint error(s) found");
        Some(e)
    }
}

proof fn lemma_room(i: int, total: int, more: int)
    requires
        0 <= i < usize::MAX,
        0 <= total <= i * usize::MAX,
        0 <= more <= usize::MAX,
    ensures
        total + more <= (i + 1) * usize::MAX,
        total + more <= u128::MAX,
{
    assert(i * usize::MAX + usize::MAX == (i + 1) * usize::MAX) by (nonlinear_arith);
    assert((i + 1) * usize::MAX <= 0xffff_ffff_ffff_ffff * 0xffff_ffff_ffff_ffff)
        by (nonlinear_arith)
        requires
            0 <= i + 1 <= usize::MAX,
            usize::MAX <= 0xffff_ffff_ffff_ffff,
    ;
}

/// What a run over nodes with these results prints, and the error it fails
/// with.
pub fn report(results: &Vec<LintResult>) -> (r: LintReport)
    ensures
        r.text@ == results_text(results_of(results@), results@.len()) + closing_line(
            results_of(results@),
        ),
        opt_text(r.failure) == lint_failure(
            error_total(results_of(results@), results@.len()),
        ),
{
    let ghost all = results_of(results@);
    let mut text = String::new();
    let mut errors: u128 = 0;
    let mut warnings: u128 = 0;
    let mut failing: usize = 0;
    for i in 0..results.len()
        invariant
            all == results_of(results@),
            text@ == results_text(all, i as nat),
            errors == error_total(all, i as nat),
            warnings == warning_total(all, i as nat),
            failing == failing_total(all, i as nat),
            errors <= i * usize::MAX,
            warnings <= i * usize::MAX,
            failing <= i,
    {
        let one = &results[i];
        assert(all[i as int] == one@);
        assert(texts(one.errors@).len() == one.errors@.len());
        assert(texts(one.warnings@).len() == one.warnings@.len());
        append_result(&mut text, one.file.as_str(), &one.errors, &one.warnings);
        text.append("\n");
        let found: usize = one.errors.len();
        let advised: usize = one.warnings.len();
        proof {
            let total: usize = results.len();
            lemma_room(i as int, errors as int, found as int);
            lemma_room(i as int, warnings as int, advised as int);
        }
        errors = errors + found as u128;
        warnings = warnings + advised as u128;
        if found > 0 {
            failing = failing + 1;
        }
        assert(text@ =~= results_text(all, (i + 1) as nat));
    }
    assert(all.len() == results@.len());
    if errors > 0 {
        text.append(long_decimal_text(errors).as_str());
        text.append(" error(s) in ");
        text.append(long_decimal_text(failing as u128).as_str());
        text.append(" file(s), ");
        text.append(long_decimal_text(warnings).as_str());
        text.append(" warning(s).\n");
    } else if warnings > 0 {
        text.append("All nodes pass lint checks (");
        text.append(long_decimal_text(warnings).as_str());
        text.append(" warning(s)).\n");
    } else {
        text.append("All nodes pass lint checks.\n");
    }
    assert(text@ =~= results_text(all, all.len()) + closing_line(all));
    LintReport { text, failure: failure_of(errors) }
}

/// Lint all nodes.
pub fn run(all: &Vec<NodeFile>) -> (r: LintReport)
    ensures
        r.text@ == results_text(
            lint_results(files(all@)),
            lint_results(files(all@)).len(),
        ) + closing_line(lint_results(files(all@))),
        opt_text(r.failure) == lint_failure(
            error_total(lint_results(files(all@)), lint_results(files(all@)).len()),
        ),
{
    let results = collect(all);
    assert(results_of(results@).len() == results@.len());
    report(&results)
}

/// What a run over one file prints.
pub open spec fn single_text(file: Seq<char>, found: FindingsModel) -> Seq<char> {
    if found.errors.len() == 0 && found.warnings.len() == 0 {
        file + ": OK\n"@
    } else {
        result_text(file, found.errors, found.warnings)
    }
}

/// What a run over one file with these findings prints, and the error it
/// fails with.
pub fn report_single(filename: &str, found: &LintFindings) -> (r: LintReport)
    ensures
        r.text@ == single_text(filename@, found@),
        opt_text(r.failure) == lint_failure(found@.errors.len()),
{
    let mut text = String::new();
    assert(texts(found.errors@).len() == found.errors@.len());
    assert(texts(found.warnings@).len() == found.warnings@.len());
    if found.errors.len() == 0 && found.warnings.len() == 0 {
        text.append(filename);
        text.append(": OK\n");
    } else {
        append_result(&mut text, filename, &found.errors, &found.warnings);
    }
    assert(text@ =~= single_text(filename@, found@));
    LintReport { text, failure: failure_of(found.errors.len() as u128) }
}

/// Lint one file.
pub fn lint_single_file(content: &str, filename: &str, existing_terms: &Vec<String>) -> (r:
    LintReport)
    ensures
        r.text@ == single_text(
            filename@,
            node_findings(content@, filename@, texts(existing_terms@)),
        ),
        opt_text(r.failure) == lint_failure(
            node_findings(content@, filename@, texts(existing_terms@)).errors.len(),
        ),
{
    let found = lint_content(content, filename, existing_terms);
    report_single(filename, &found)
}

// ---------------------------------------------------------------------------
// Laws
// ---------------------------------------------------------------------------

proof fn lemma_broken_links(
    terms: Seq<Seq<char>>,
    existing: Seq<Seq<char>>,
    filename: Seq<char>,
    term: Seq<char>,
)
    requires
        terms.contains(term),
        !existing.contains(term),
    ensures
        broken_links(terms, existing, filename).contains(broken_link(term, filename)),
    decreases terms.len(),
{
    let front = terms.drop_last();
    let e = broken_link(term, filename);
    crate::order::lemma_contains_last(terms, term);
    if terms.last() == term {
        assert(broken_links(terms, existing, filename).last() == e);
    } else {
        lemma_broken_links(front, existing, filename, term);
        let before = broken_links(front, existing, filename);
        let i = before.index_of(e);
        assert(broken_links(terms, existing, filename)[i] == e);
    }
}

proof fn lemma_no_broken_links(
    terms: Seq<Seq<char>>,
    existing: Seq<Seq<char>>,
    filename: Seq<char>,
)
    requires
        forall|t: Seq<char>| #[trigger] terms.contains(t) ==> existing.contains(t),
    ensures
        broken_links(terms, existing, filename).len() == 0,
    decreases terms.len(),
{
    if terms.len() > 0 {
        let front = terms.drop_last();
        assert forall|t: Seq<char>| #[trigger] front.contains(t) implies existing.contains(t) by {
            crate::order::lemma_contains_last(terms, t);
            assert(terms.contains(t));
        }
        lemma_no_broken_links(front, existing, filename);
        crate::order::lemma_contains_last(terms, terms.last());
        assert(terms.contains(terms.last()));
    }
}

/// A node whose parts are all there: a title and the three sections.
pub open spec fn whole(content: Seq<char>) -> bool {
    &&& has_title(lines(content))
    &&& has_section(lines(content), "Ontology"@)
    &&& has_section(lines(content), "Axiology"@)
    &&& has_section(lines(content), "Epistemology"@)
}

/// A node has no errors exactly when it has a title and the three sections
/// and every node it links exists.
pub proof fn a_node_passes_when_whole_and_linked(
    content: Seq<char>,
    links: Seq<LinkModel>,
    filename: Seq<char>,
    existing: Seq<Seq<char>>,
)
    ensures
        (findings_with(content, links, filename, existing).errors.len() == 0) == (whole(content)
            && forall|t: Seq<char>| #[trigger]
            link_terms(links).contains(t) ==> existing.contains(t)),
{
    let all = link_terms(links);
    let terms = sorted_set(all);
    lemma_sorted_set(all);
    let broken = broken_links(terms, existing, filename);
    let parts = missing_parts(lines(content));
    assert((parts.len() == 0) == whole(content));
    if forall|t: Seq<char>| #[trigger] all.contains(t) ==> existing.contains(t) {
        assert forall|t: Seq<char>| #[trigger] terms.contains(t) implies existing.contains(t) by {
            assert(all.contains(t));
        }
        lemma_no_broken_links(terms, existing, filename);
    } else {
        let t = choose|t: Seq<char>| #[trigger] all.contains(t) && !existing.contains(t);
        assert(terms.contains(t));
        lemma_broken_links(terms, existing, filename, t);
        assert(broken.len() > 0);
    }
}

/// Every link to a node that does not exist is an error that names it.
pub proof fn a_broken_link_is_named(
    content: Seq<char>,
    links: Seq<LinkModel>,
    filename: Seq<char>,
    existing: Seq<Seq<char>>,
    i: int,
)
    requires
        0 <= i < links.len(),
        !existing.contains(links[i].term),
    ensures
        findings_with(content, links, filename, existing).errors.contains(
            broken_link(links[i].term, filename),
        ),
{
    let all = link_terms(links);
    let terms = sorted_set(all);
    let term = links[i].term;
    assert(all[i] == term);
    lemma_sorted_set(all);
    assert(terms.contains(term));
    lemma_broken_links(terms, existing, filename, term);
    let parts = missing_parts(lines(content));
    let broken = broken_links(terms, existing, filename);
    let k = broken.index_of(broken_link(term, filename));
    assert((parts + broken)[parts.len() + k] == broken_link(term, filename));
}

proof fn lemma_error_total(list: Seq<ResultModel>, n: nat)
    requires
        n <= list.len(),
    ensures
        (error_total(list, n) == 0) == (forall|i: int|
            0 <= i < n ==> (#[trigger] list[i]).errors.len() == 0),
    decreases n,
{
    if n > 0 {
        lemma_error_total(list, (n - 1) as nat);
    }
}

/// Warnings never fail a run: it fails exactly when some file has an error.
pub proof fn only_errors_fail_a_run(list: Seq<ResultModel>)
    ensures
        (lint_failure(error_total(list, list.len())) is None) == (forall|i: int|
            0 <= i < list.len() ==> (#[trigger] list[i]).errors.len() == 0),
{
    lemma_error_total(list, list.len());
}

/// Subsections of a section without a vocabulary raise no warning.
pub proof fn other_sections_take_any_subsection(ls: Seq<Seq<char>>)
    requires
        forall|i: int|
            0 <= i < ls.len() && starts(trim(#[trigger] ls[i]), "## "@) ==> listed_section(
                trim(ls[i]),
            ) is None,
    ensures
        section_at_end(ls) is None,
        subsection_warnings(ls).len() == 0,
    decreases ls.len(),
{
    if ls.len() > 0 {
        let front = ls.drop_last();
        assert forall|i: int|
            0 <= i < front.len() && starts(trim(#[trigger] front[i]), "## "@) implies listed_section(
            trim(front[i]),
        ) is None by {
            assert(front[i] == ls[i]);
        }
        other_sections_take_any_subsection(front);
        assert(ls.last() == ls[ls.len() - 1]);
    }
}

/// A section that every node must have.
pub open spec fn is_required(name: Seq<char>) -> bool {
    name == "Ontology"@ || name == "Axiology"@ || name == "Epistemology"@
}

/// The error that names a missing section.
spec fn missing_message(name: Seq<char>) -> Seq<char> {
    "Missing required section: ## ["@ + name + "]"@
}

proof fn lemma_missing_messages()
    ensures
        missing_message("Ontology"@) == "Missing required section: ## [Ontology]"@,
        missing_message("Axiology"@) == "Missing required section: ## [Axiology]"@,
        missing_message("Epistemology"@) == "Missing required section: ## [Epistemology]"@,
{
    reveal_strlit("Missing required section: ## [");
    reveal_strlit("]");
    reveal_strlit("Ontology");
    reveal_strlit("Axiology");
    reveal_strlit("Epistemology");
    reveal_strlit("Missing required section: ## [Ontology]");
    reveal_strlit("Missing required section: ## [Axiology]");
    reveal_strlit("Missing required section: ## [Epistemology]");
    assert(missing_message("Ontology"@) =~= "Missing required section: ## [Ontology]"@);
    assert(missing_message("Axiology"@) =~= "Missing required section: ## [Axiology]"@);
    assert(missing_message("Epistemology"@) =~= "Missing required section: ## [Epistemology]"@);
}

/// The four messages about parts of a node differ, and none of them is about
/// a link.
proof fn lemma_messages_apart(link: Seq<char>, filename: Seq<char>)
    ensures
        "Missing title (# Term)"@ != "Missing required section: ## [Ontology]"@,
        "Missing title (# Term)"@ != "Missing required section: ## [Axiology]"@,
        "Missing title (# Term)"@ != "Missing required section: ## [Epistemology]"@,
        "Missing required section: ## [Ontology]"@ != "Missing required section: ## [Axiology]"@,
        "Missing required section: ## [Ontology]"@ != "Missing required section: ## [Epistemology]"@,
        "Missing required section: ## [Axiology]"@ != "Missing required section: ## [Epistemology]"@,
        broken_link(link, filename) != "Missing title (# Term)"@,
        broken_link(link, filename) != "Missing required section: ## [Ontology]"@,
        broken_link(link, filename) != "Missing required section: ## [Axiology]"@,
        broken_link(link, filename) != "Missing required section: ## [Epistemology]"@,
{
    reveal_strlit("Missing title (# Term)");
    reveal_strlit("Missing required section: ## [Ontology]");
    reveal_strlit("Missing required section: ## [Axiology]");
    reveal_strlit("Missing required section: ## [Epistemology]");
    reveal_strlit("Broken link: [");
    assert("Missing title (# Term)"@[8] == 't');
    assert("Missing required section: ## [Ontology]"@[8] == 'r');
    assert("Missing required section: ## [Axiology]"@[8] == 'r');
    assert("Missing required section: ## [Epistemology]"@[8] == 'r');
    assert("Missing required section: ## [Ontology]"@[30] == 'O');
    assert("Missing required section: ## [Axiology]"@[30] == 'A');
    assert("Missing required section: ## [Epistemology]"@[30] == 'E');
    assert(broken_link(link, filename)[0] == 'B');
    assert("Missing title (# Term)"@[0] == 'M');
    assert("Missing required section: ## [Ontology]"@[0] == 'M');
    assert("Missing required section: ## [Axiology]"@[0] == 'M');
    assert("Missing required section: ## [Epistemology]"@[0] == 'M');
}

proof fn lemma_all_broken(terms: Seq<Seq<char>>, existing: Seq<Seq<char>>, filename: Seq<char>)
    ensures
        forall|e: Seq<char>| #[trigger]
            broken_links(terms, existing, filename).contains(e) ==> exists|t: Seq<char>|
                #![trigger broken_link(t, filename)]
                terms.contains(t) && !existing.contains(t) && e == broken_link(t, filename),
    decreases terms.len(),
{
    if terms.len() > 0 {
        let front = terms.drop_last();
        lemma_all_broken(front, existing, filename);
        let r = broken_links(terms, existing, filename);
        assert forall|e: Seq<char>| #[trigger] r.contains(e) implies exists|t: Seq<char>|
            #![trigger broken_link(t, filename)]
            terms.contains(t) && !existing.contains(t) && e == broken_link(t, filename) by {
            if !existing.contains(terms.last()) {
                crate::order::lemma_contains_last(r, e);
                assert(r.drop_last() =~= broken_links(front, existing, filename));
            }
            if broken_links(front, existing, filename).contains(e) {
                let t = choose|t: Seq<char>|
                    #![trigger broken_link(t, filename)]
                    front.contains(t) && !existing.contains(t) && e == broken_link(t, filename);
                crate::order::lemma_contains_last(terms, t);
                assert(terms.contains(t) && e == broken_link(t, filename));
            } else {
                crate::order::lemma_contains_last(terms, terms.last());
                assert(terms.contains(terms.last()) && e == broken_link(terms.last(), filename));
            }
        }
    }
}

proof fn lemma_no_deeper_heading(t: Seq<char>)
    requires
        starts(t, "## "@),
    ensures
        !starts(t, "### "@),
        !starts(t, "# "@),
{
    reveal_strlit("## ");
    reveal_strlit("### ");
    reveal_strlit("# ");
    assert(t.take(3)[2] == ' ' && t.take(3)[1] == '#');
    assert(t[2] == ' ' && t[1] == '#');
    if starts(t, "### "@) {
        assert(t.take(4)[2] == '#');
    }
    if starts(t, "# "@) {
        assert(t.take(2)[1] == ' ');
    }
}

/// A part of a node is missing or there by its line alone: each error about
/// one stands or not as the lines say.
proof fn lemma_part_errors(
    content: Seq<char>,
    links: Seq<LinkModel>,
    filename: Seq<char>,
    existing: Seq<Seq<char>>,
)
    ensures
        ({
            let ls = lines(content);
            let errors = findings_with(content, links, filename, existing).errors;
            &&& errors.contains("Missing title (# Term)"@) == !has_title(ls)
            &&& errors.contains("Missing required section: ## [Ontology]"@) == !has_section(
                ls,
                "Ontology"@,
            )
            &&& errors.contains("Missing required section: ## [Axiology]"@) == !has_section(
                ls,
                "Axiology"@,
            )
            &&& errors.contains("Missing required section: ## [Epistemology]"@) == !has_section(
                ls,
                "Epistemology"@,
            )
        }),
{
    let ls = lines(content);
    let terms = sorted_set(link_terms(links));
    let broken = broken_links(terms, existing, filename);
    let parts = missing_parts(ls);
    let errors = findings_with(content, links, filename, existing).errors;
    assert(errors == parts + broken);
    lemma_all_broken(terms, existing, filename);
    lemma_messages_apart(Seq::empty(), filename);
    let t0 = "Missing title (# Term)"@;
    let t1 = "Missing required section: ## [Ontology]"@;
    let t2 = "Missing required section: ## [Axiology]"@;
    let t3 = "Missing required section: ## [Epistemology]"@;
    assert forall|e: Seq<char>| e == t0 || e == t1 || e == t2 || e == t3 implies (#[trigger]
    errors.contains(e) == parts.contains(e)) by {
        if broken.contains(e) {
            let t = choose|t: Seq<char>|
                #![trigger broken_link(t, filename)]
                terms.contains(t) && !existing.contains(t) && e == broken_link(t, filename);
            lemma_messages_apart(t, filename);
        }
        if errors.contains(e) {
            let i = choose|i: int| 0 <= i < errors.len() && errors[i] == e;
            if i < parts.len() {
                assert(parts[i] == e);
            } else {
                assert(broken[i - parts.len()] == e);
                assert(broken.contains(e));
            }
        }
        if parts.contains(e) {
            let i = choose|i: int| 0 <= i < parts.len() && parts[i] == e;
            assert(errors[i] == e);
        }
    }
    let u0 = unless(has_title(ls), t0);
    let u1 = unless(has_section(ls, "Ontology"@), t1);
    let u2 = unless(has_section(ls, "Axiology"@), t2);
    let u3 = unless(has_section(ls, "Epistemology"@), t3);
    let n0 = u0.len() as int;
    let n1 = n0 + u1.len();
    let n2 = n1 + u2.len();
    assert(parts == u0 + u1 + u2 + u3);
    if !has_title(ls) {
        assert(parts[0] == t0);
    }
    if !has_section(ls, "Ontology"@) {
        assert(parts[n0] == t1);
    }
    if !has_section(ls, "Axiology"@) {
        assert(parts[n1] == t2);
    }
    if !has_section(ls, "Epistemology"@) {
        assert(parts[n2] == t3);
    }
}

/// A required section counts only by its heading: it is reported missing
/// exactly when no line of the text begins, without the white space at its
/// ends, with `## ` and holds the name of the section.
pub proof fn a_section_counts_only_by_its_heading(
    content: Seq<char>,
    links: Seq<LinkModel>,
    filename: Seq<char>,
    existing: Seq<Seq<char>>,
    name: Seq<char>,
)
    requires
        is_required(name),
    ensures
        findings_with(content, links, filename, existing).errors.contains(
            "Missing required section: ## ["@ + name + "]"@,
        ) <==> !exists|i: int|
            0 <= i < lines(content).len() && starts(trim(#[trigger] lines(content)[i]), "## "@)
                && has(trim(lines(content)[i]), name),
{
    let ls = lines(content);
    lemma_missing_messages();
    lemma_part_errors(content, links, filename, existing);
    if exists|i: int|
        0 <= i < ls.len() && starts(trim(#[trigger] ls[i]), "## "@) && has(trim(ls[i]), name) {
        let i = choose|i: int|
            0 <= i < ls.len() && starts(trim(#[trigger] ls[i]), "## "@) && has(trim(ls[i]), name);
        lemma_no_deeper_heading(trim(ls[i]));
        assert(section_heading(ls[i], name));
    }
    if has_section(ls, name) {
        let i = choose|i: int| 0 <= i < ls.len() && section_heading(#[trigger] ls[i], name);
        assert(starts(trim(ls[i]), "## "@) && has(trim(ls[i]), name));
    }
}

/// A title counts only by its line: it is reported missing exactly when no
/// line of the text begins, without the white space at its ends, with `# `.
pub proof fn a_title_counts_only_by_its_line(
    content: Seq<char>,
    links: Seq<LinkModel>,
    filename: Seq<char>,
    existing: Seq<Seq<char>>,
)
    ensures
        findings_with(content, links, filename, existing).errors.contains(
            "Missing title (# Term)"@,
        ) <==> !exists|i: int|
            0 <= i < lines(content).len() && starts(trim(#[trigger] lines(content)[i]), "# "@),
{
    let ls = lines(content);
    lemma_part_errors(content, links, filename, existing);
    if exists|i: int| 0 <= i < ls.len() && starts(trim(#[trigger] ls[i]), "# "@) {
        let i = choose|i: int| 0 <= i < ls.len() && starts(trim(#[trigger] ls[i]), "# "@);
        if starts(trim(ls[i]), "## "@) {
            lemma_no_deeper_heading(trim(ls[i]));
        }
        assert(is_title(ls[i]));
    }
    if has_title(ls) {
        let i = choose|i: int| 0 <= i < ls.len() && is_title(#[trigger] ls[i]);
        assert(starts(trim(ls[i]), "# "@));
    }
}

/// Nothing else is an error: each one is about the title, about a required
/// section, or names a link of the node to one that does not exist.
pub proof fn every_error_has_its_cause(
    content: Seq<char>,
    links: Seq<LinkModel>,
    filename: Seq<char>,
    existing: Seq<Seq<char>>,
    error: Seq<char>,
)
    requires
        findings_with(content, links, filename, existing).errors.contains(error),
    ensures
        error == "Missing title (# Term)"@ || error == "Missing required section: ## [Ontology]"@
            || error == "Missing required section: ## [Axiology]"@ || error
            == "Missing required section: ## [Epistemology]"@ || exists|i: int|
            0 <= i < links.len() && !existing.contains((#[trigger] links[i]).term) && error
                == "Broken link: ["@ + links[i].term + "](./"@ + links[i].term
                + ".md) — file src/"@ + links[i].term + ".md not found (referenced in "@ + filename
                + ")"@,
{
    let ls = lines(content);
    let all = link_terms(links);
    let terms = sorted_set(all);
    let broken = broken_links(terms, existing, filename);
    let parts = missing_parts(ls);
    let errors = findings_with(content, links, filename, existing).errors;
    let k = choose|k: int| 0 <= k < errors.len() && errors[k] == error;
    if k < parts.len() {
        assert(parts[k] == error);
    } else {
        assert(broken[k - parts.len()] == error);
        assert(broken.contains(error));
        lemma_all_broken(terms, existing, filename);
        let t = choose|t: Seq<char>|
            #![trigger broken_link(t, filename)]
            terms.contains(t) && !existing.contains(t) && error == broken_link(t, filename);
        lemma_sorted_set(all);
        assert(all.contains(t));
        let i = choose|i: int| 0 <= i < all.len() && all[i] == t;
        assert(links[i].term == t);
    }
}

proof fn lemma_section_reached(ls: Seq<Seq<char>>, j: int)
    requires
        0 <= j < ls.len(),
        starts(trim(ls[j]), "## "@),
        forall|i: int| j < i < ls.len() ==> !starts(trim(#[trigger] ls[i]), "## "@),
    ensures
        section_at_end(ls) == listed_section(trim(ls[j])),
    decreases ls.len(),
{
    if j < ls.len() - 1 {
        assert(!starts(trim(ls[ls.len() - 1]), "## "@));
        assert forall|i: int| j < i < ls.drop_last().len() implies !starts(
            trim(#[trigger] ls.drop_last()[i]),
            "## "@,
        ) by {
            assert(ls.drop_last()[i] == ls[i]);
        }
        lemma_section_reached(ls.drop_last(), j);
    }
}

proof fn lemma_warnings_grow(ls: Seq<Seq<char>>, n: int)
    requires
        0 <= n <= ls.len(),
    ensures
        subsection_warnings(ls.take(n)).len() <= subsection_warnings(ls).len(),
        forall|i: int|
            0 <= i < subsection_warnings(ls.take(n)).len() ==> subsection_warnings(ls)[i]
                == #[trigger] subsection_warnings(ls.take(n))[i],
    decreases ls.len(),
{
    if n == ls.len() {
        assert(ls.take(n) =~= ls);
    } else {
        lemma_warnings_grow(ls.drop_last(), n);
        assert(ls.drop_last().take(n) =~= ls.take(n));
    }
}

/// A subsection outside the vocabulary of its section is warned of: under an
/// Ontology heading everything but `Pattern` and `Senses`, under an
/// Epistemology heading everything but `Cultural Definition`, `Sources`,
/// `Pattern Expression` and `Examples`. The section is the one of the last
/// `## ` heading before the line.
pub proof fn a_subsection_outside_the_vocabulary_is_warned_of(
    content: Seq<char>,
    links: Seq<LinkModel>,
    filename: Seq<char>,
    existing: Seq<Seq<char>>,
    j: int,
    k: int,
)
    requires
        0 <= j < k < lines(content).len(),
        starts(trim(lines(content)[j]), "## "@),
        forall|i: int| j < i <= k ==> !starts(trim(#[trigger] lines(content)[i]), "## "@),
        starts(trim(lines(content)[k]), "### "@),
    ensures
        ({
            let heading = trim(lines(content)[j]);
            let name = heading_text(trim(lines(content)[k]));
            let warnings = findings_with(content, links, filename, existing).warnings;
            &&& has(heading, "Ontology"@) && name != "Pattern"@ && name != "Senses"@
                ==> warnings.contains(
                "Non-standard Ontology subsection `"@ + name
                    + "` — recognized vocabulary: Pattern, Senses"@,
            )
            &&& !(has(heading, "Ontology"@)) && has(heading, "Epistemology"@) && name
                != "Cultural Definition"@ && name != "Sources"@ && name != "Pattern Expression"@
                && name != "Examples"@ ==> warnings.contains(
                "Non-standard Epistemology subsection `"@ + name
                    + "` — recognized vocabulary: Cultural Definition | Sources, Pattern Expression | Examples"@,
            )
        }),
{
    let ls = lines(content);
    let part = ls.take(k + 1);
    let heading = trim(ls[j]);
    let name = heading_text(trim(ls[k]));
    assert forall|i: int| j < i < part.len() implies !starts(trim(#[trigger] part[i]), "## "@) by {
        assert(part[i] == ls[i]);
    }
    assert(part[j] == ls[j] && part.last() == ls[k]);
    lemma_section_reached(part, j);
    assert(!starts(trim(ls[k]), "## "@));
    lemma_warnings_grow(ls, k + 1);
    reveal_strlit("Ontology");
    reveal_strlit("Epistemology");
    reveal_strlit("Non-standard ");
    reveal_strlit(" subsection `");
    reveal_strlit("` — recognized vocabulary: ");
    reveal_strlit("Pattern, Senses");
    reveal_strlit("Cultural Definition | Sources, Pattern Expression | Examples");
    reveal_strlit("Non-standard Ontology subsection `");
    reveal_strlit("Non-standard Epistemology subsection `");
    reveal_strlit("` — recognized vocabulary: Pattern, Senses");
    reveal_strlit(
        "` — recognized vocabulary: Cultural Definition | Sources, Pattern Expression | Examples",
    );
    assert("Ontology"@[0] == 'O' && "Epistemology"@[0] == 'E');
    let warnings = findings_with(content, links, filename, existing).warnings;
    let all = subsection_warnings(ls);
    let some = subsection_warnings(part);
    let section = listed_section(heading);
    if section is Some && !recognized(section->Some_0, name) {
        let w = subsection_warning(section->Some_0, name);
        assert(some.last() == w);
        assert(all[some.len() - 1] == w);
        assert(warnings[some.len() - 1] == w);
        if section == Some("Ontology"@) {
            assert(w =~= "Non-standard Ontology subsection `"@ + name
                + "` — recognized vocabulary: Pattern, Senses"@);
        } else {
            assert(w =~= "Non-standard Epistemology subsection `"@ + name
                + "` — recognized vocabulary: Cultural Definition | Sources, Pattern Expression | Examples"@);
        }
    }
}

proof fn lemma_title_warned(links: Seq<LinkModel>, i: int)
    requires
        0 <= i < links.len(),
        links[i].unknown_title is Some,
    ensures
        title_warnings(links).contains(
            title_warning(links[i].term, links[i].unknown_title->Some_0),
        ),
    decreases links.len(),
{
    let w = title_warning(links[i].term, links[i].unknown_title->Some_0);
    let front = links.drop_last();
    if i < front.len() {
        assert(front[i] == links[i]);
        lemma_title_warned(front, i);
        let k = title_warnings(front).index_of(w);
        assert(title_warnings(links)[k] == w);
    } else {
        assert(title_warnings(links).last() == w);
    }
}

proof fn lemma_conflict_warned(links: Seq<LinkModel>, terms: Seq<Seq<char>>, t: Seq<char>)
    requires
        terms.contains(t),
        typed_both(links, t),
    ensures
        conflict_warnings(links, terms).contains(conflict_warning(t)),
    decreases terms.len(),
{
    let front = terms.drop_last();
    crate::order::lemma_contains_last(terms, t);
    if terms.last() == t {
        assert(conflict_warnings(links, terms).last() == conflict_warning(t));
    } else {
        lemma_conflict_warned(links, front, t);
        let k = conflict_warnings(links, front).index_of(conflict_warning(t));
        assert(conflict_warnings(links, terms)[k] == conflict_warning(t));
    }
}

/// A link title that is no relation is warned of, and so is a target that one
/// link types broader and another narrower; neither is an error.
pub proof fn a_mistyped_link_is_warned_of(
    content: Seq<char>,
    links: Seq<LinkModel>,
    filename: Seq<char>,
    existing: Seq<Seq<char>>,
    i: int,
    j: int,
)
    requires
        0 <= i < links.len(),
        0 <= j < links.len(),
    ensures
        ({
            let warnings = findings_with(content, links, filename, existing).warnings;
            let term = links[i].term;
            &&& links[i].unknown_title matches Some(title) ==> warnings.contains(
                "Unknown link title `"@ + title + "` on ["@ + term + "](./"@ + term
                    + ".md) — recognized relations: broader | narrower | related"@,
            )
            &&& links[i].relation == Relation::Broader && links[j].relation == Relation::Narrower
                && links[j].term == term ==> warnings.contains(
                "["@ + term + "](./"@ + term + ".md) is typed both broader and narrower"@,
            )
        }),
{
    let first = subsection_warnings(lines(content));
    let titles = title_warnings(links);
    let all = link_terms(links);
    let terms = sorted_set(all);
    let conflicts = conflict_warnings(links, terms);
    let warnings = findings_with(content, links, filename, existing).warnings;
    assert(warnings == first + (titles + conflicts));
    let term = links[i].term;
    if links[i].unknown_title is Some {
        lemma_title_warned(links, i);
        let w = title_warning(term, links[i].unknown_title->Some_0);
        let k = titles.index_of(w);
        assert(warnings[first.len() + k] == w);
    }
    if links[i].relation == Relation::Broader && links[j].relation == Relation::Narrower
        && links[j].term == term {
        lemma_sorted_set(all);
        assert(all[i] == term);
        assert(terms.contains(term));
        assert(asserts(links, term, Relation::Broader));
        assert(asserts(links, term, Relation::Narrower));
        lemma_conflict_warned(links, terms, term);
        let k = conflicts.index_of(conflict_warning(term));
        assert(warnings[first.len() + titles.len() + k] == conflict_warning(term));
    }
}

}
