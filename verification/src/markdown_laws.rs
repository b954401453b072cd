//! What holds of titles, sections, links and definitions.

use vstd::prelude::*;

use crate::config::{ring_at, RingModel};
use crate::markdown::{
    definition, external_links, first_line, last_heading, md_stems, next_heading, node_of, plain,
    relation_of, section, title, title_of, typed_links, urls_of_hits, without_marks, Relation,
};
use crate::order::{ascending, lemma_contains_last, lemma_sorted, lemma_sorted_set, sorted, strictly_ascending};
use crate::pattern::{group, has_group, regex_matches, rewrite, Hit};
use crate::text::{
    ascii_lower_text, ends, has, is_white_space, join, lines, replace, starts, strip_prefixes, trim,
    trim_end, trim_start, without,
};

verus! {

// ---------------------------------------------------------------------------
// Titles and sections
// ---------------------------------------------------------------------------

/// A line that begins, after white space, with one number sign and a space.
pub open spec fn title_at(ls: Seq<Seq<char>>, i: int) -> bool {
    0 <= i < ls.len() && starts(trim(ls[i]), "# "@)
}

proof fn lemma_not_deeper(s: Seq<char>)
    requires
        starts(s, "# "@),
    ensures
        !starts(s, "## "@),
{
    reveal_strlit("# ");
    reveal_strlit("## ");
    assert(s.take(2)[1] == s[1]);
    if starts(s, "## "@) {
        assert(s.take(3)[1] == s[1]);
    }
}

proof fn lemma_title(ls: Seq<Seq<char>>)
    ensures
        match title_of(ls) {
            Some(t) => exists|i: int|
                {
                    &&& #[trigger] title_at(ls, i)
                    &&& t == strip_prefixes(trim(ls[i]), "# "@)
                    &&& forall|j: int| #[trigger] title_at(ls, j) ==> i <= j
                },
            None => forall|j: int| !(#[trigger] title_at(ls, j)),
        },
    decreases ls.len(),
{
    if ls.len() > 0 {
        let rest = ls.skip(1);
        if starts(trim(ls[0]), "# "@) {
            lemma_not_deeper(trim(ls[0]));
            assert(title_at(ls, 0));
        } else {
            lemma_title(rest);
            assert forall|j: int| #[trigger] title_at(ls, j) implies title_at(rest, j - 1) by {
                assert(rest[j - 1] == ls[j]);
            }
            if let Some(t) = title_of(rest) {
                let i = choose|i: int|
                    {
                        &&& #[trigger] title_at(rest, i)
                        &&& t == strip_prefixes(trim(rest[i]), "# "@)
                        &&& forall|j: int| #[trigger] title_at(rest, j) ==> i <= j
                    };
                assert(ls[i + 1] == rest[i]);
                assert(title_at(ls, i + 1));
                assert forall|j: int| #[trigger] title_at(ls, j) implies i + 1 <= j by {
                    assert(title_at(rest, j - 1));
                }
            }
        }
    }
}

/// The title of a text is what stands on the first of its lines that begin
/// with one number sign and a space, without them; a text without such a line
/// has none.
pub proof fn the_first_title_line_names_the_text(content: Seq<char>)
    ensures
        match title(content) {
            Some(t) => exists|i: int|
                {
                    &&& #[trigger] title_at(lines(content), i)
                    &&& t == strip_prefixes(trim(lines(content)[i]), "# "@)
                    &&& forall|j: int| #[trigger] title_at(lines(content), j) ==> i <= j
                },
            None => forall|j: int| !(#[trigger] title_at(lines(content), j)),
        },
{
    lemma_title(lines(content));
}

/// A line that begins, after white space, with two number signs and a space.
pub open spec fn heading_at(ls: Seq<Seq<char>>, i: int) -> bool {
    0 <= i < ls.len() && starts(trim(ls[i]), "## "@)
}

/// A heading with a name in it.
pub open spec fn heading_with(ls: Seq<Seq<char>>, i: int, name: Seq<char>) -> bool {
    heading_at(ls, i) && has(strip_prefixes(trim(ls[i]), "## "@), name)
}

proof fn lemma_not_a_subheading(s: Seq<char>)
    requires
        starts(s, "## "@),
    ensures
        !starts(s, "### "@),
{
    reveal_strlit("## ");
    reveal_strlit("### ");
    assert(s.take(3)[2] == s[2]);
    if starts(s, "### "@) {
        assert(s.take(4)[2] == s[2]);
    }
}

proof fn lemma_last_heading(ls: Seq<Seq<char>>, name: Seq<char>)
    ensures
        match last_heading(ls, name) {
            Some(i) => heading_with(ls, i, name) && forall|j: int| #[trigger]
                heading_with(ls, j, name) ==> j <= i,
            None => forall|j: int| !(#[trigger] heading_with(ls, j, name)),
        },
    decreases ls.len(),
{
    if ls.len() > 0 {
        let front = ls.drop_last();
        lemma_last_heading(front, name);
        assert forall|j: int| #[trigger] heading_with(ls, j, name) && j
            < front.len() implies heading_with(front, j, name) by {
            assert(front[j] == ls[j]);
        }
        let last = ls.last();
        if starts(trim(last), "## "@) {
            lemma_not_a_subheading(trim(last));
        }
        if crate::markdown::names_section(last, name) {
            assert(heading_with(ls, ls.len() - 1, name));
        } else {
            if let Some(i) = last_heading(front, name) {
                assert(ls[i] == front[i]);
                assert(heading_with(ls, i, name));
            }
            assert(!heading_with(ls, ls.len() - 1, name));
        }
    }
}

proof fn lemma_next_heading(ls: Seq<Seq<char>>, from: int)
    requires
        0 <= from <= ls.len(),
    ensures
        from <= next_heading(ls, from) <= ls.len(),
        next_heading(ls, from) < ls.len() ==> heading_at(ls, next_heading(ls, from)),
        forall|j: int| from <= j < next_heading(ls, from) ==> !(#[trigger] heading_at(ls, j)),
    decreases ls.len() - from,
{
    if from < ls.len() {
        if starts(trim(ls[from]), "## "@) {
            lemma_not_a_subheading(trim(ls[from]));
        } else {
            lemma_next_heading(ls, from + 1);
        }
    }
}

/// The lines of a section: those between the last heading with its name and
/// the next heading, or the end.
pub open spec fn section_lines(
    ls: Seq<Seq<char>>,
    name: Seq<char>,
    from: int,
    to: int,
) -> bool {
    &&& heading_with(ls, from, name)
    &&& forall|j: int| #[trigger] heading_with(ls, j, name) ==> j <= from
    &&& from < to <= ls.len()
    &&& to < ls.len() ==> heading_at(ls, to)
    &&& forall|j: int| from < j < to ==> !(#[trigger] heading_at(ls, j))
}

/// A section is the text, without white space around it, between the last
/// heading with its name and the next heading or the end; there is none
/// without such a heading, and none where nothing but white space stands
/// there.
pub proof fn a_section_stands_under_its_heading(content: Seq<char>, name: Seq<char>)
    ensures
        match section(content, name) {
            Some(text) => text.len() > 0 && exists|from: int, to: int|
                #[trigger] section_lines(lines(content), name, from, to) && text == trim(
                    join(lines(content).subrange(from + 1, to), "\n"@),
                ),
            None => (forall|j: int| !(#[trigger] heading_with(lines(content), j, name)))
                || exists|from: int, to: int|
                #[trigger] section_lines(lines(content), name, from, to) && trim(
                    join(lines(content).subrange(from + 1, to), "\n"@),
                ).len() == 0,
        },
{
    let ls = lines(content);
    lemma_last_heading(ls, name);
    if let Some(i) = last_heading(ls, name) {
        lemma_next_heading(ls, i + 1);
        assert(section_lines(ls, name, i, next_heading(ls, i + 1)));
    }
}

proof fn lemma_first_line(ls: Seq<Seq<char>>)
    ensures
        match first_line(ls) {
            Some(d) => exists|i: int|
                0 <= i < ls.len() && d == trim(#[trigger] ls[i]) && d.len() > 0 && forall|j: int|
                    0 <= j < i ==> trim(#[trigger] ls[j]).len() == 0,
            None => forall|j: int| 0 <= j < ls.len() ==> trim(#[trigger] ls[j]).len() == 0,
        },
    decreases ls.len(),
{
    if ls.len() > 0 && trim(ls[0]).len() == 0 {
        let rest = ls.skip(1);
        lemma_first_line(rest);
        assert forall|j: int| 0 < j < ls.len() implies #[trigger] ls[j] == rest[j - 1] by {}
        if let Some(d) = first_line(rest) {
            let i = choose|i: int|
                0 <= i < rest.len() && d == trim(#[trigger] rest[i]) && d.len() > 0 && forall|
                    j: int,
                |
                    0 <= j < i ==> trim(#[trigger] rest[j]).len() == 0;
            assert(d == trim(ls[i + 1]));
            assert forall|j: int| 0 <= j < i + 1 implies trim(#[trigger] ls[j]).len() == 0 by {
                if j > 0 {
                    assert(trim(rest[j - 1]).len() == 0);
                }
            }
        } else {
            assert forall|j: int| 0 <= j < ls.len() implies trim(#[trigger] ls[j]).len() == 0 by {
                if j > 0 {
                    assert(trim(rest[j - 1]).len() == 0);
                }
            }
        }
    } else if ls.len() > 0 {
        assert(trim(ls[0]).len() > 0);
    }
}

/// The lay definition is the first line of the Ontology section that is not
/// blank, without white space around it.
pub proof fn the_ontology_section_opens_with_the_definition(content: Seq<char>)
    ensures
        section(content, "Ontology"@) is None ==> definition(content) is None,
        section(content, "Ontology"@) matches Some(text) ==> match definition(content) {
            Some(d) => exists|i: int|
                0 <= i < lines(text).len() && d == trim(#[trigger] lines(text)[i]) && d.len() > 0
                    && forall|j: int| 0 <= j < i ==> trim(#[trigger] lines(text)[j]).len() == 0,
            None => forall|j: int|
                0 <= j < lines(text).len() ==> trim(#[trigger] lines(text)[j]).len() == 0,
        },
{
    if let Some(text) = section(content, "Ontology"@) {
        lemma_first_line(lines(text));
    }
}

// ---------------------------------------------------------------------------
// Links
// ---------------------------------------------------------------------------

/// A link title names a relation by its word, whatever the case of its
/// letters and the white space around it; any other title names none.
pub proof fn a_link_title_names_its_relation(t: Seq<char>)
    ensures
        relation_of(t) == Some(Relation::Broader) <==> ascii_lower_text(trim(t)) == "broader"@,
        relation_of(t) == Some(Relation::Narrower) <==> ascii_lower_text(trim(t)) == "narrower"@,
        relation_of(t) == Some(Relation::Related) <==> ascii_lower_text(trim(t)) == "related"@,
{
    reveal_strlit("broader");
    reveal_strlit("narrower");
    reveal_strlit("related");
    assert("broader"@[0] != "narrower"@[0]);
    assert("related"@[0] != "narrower"@[0]);
    assert("related"@[0] != "broader"@[0]);
}

/// The links of a text are the matches of `[text](./term.md "title")`, in
/// order: the second group is the term, the third the title. Without a title,
/// or with one that names no relation, a link is related; such a title is
/// kept.
pub proof fn links_are_read_from_their_markup(content: Seq<char>, i: int)
    requires
        0 <= i < typed_links(content).len(),
    ensures
        ({
            let found = regex_matches(
                r#"\[([^\]]+)\]\(\./([a-z0-9_-]+)\.md(?:\s+"([^"]*)")?\)"#@,
                content,
            ).0;
            let h = found[i];
            let link = typed_links(content)[i];
            &&& typed_links(content).len() == found.len()
            &&& link.term == group(h, 2)
            &&& !has_group(h, 3) ==> link.relation == Relation::Related
                && link.unknown_title is None
            &&& has_group(h, 3) && relation_of(group(h, 3)) is Some ==> Some(link.relation)
                == relation_of(group(h, 3)) && link.unknown_title is None
            &&& has_group(h, 3) && relation_of(group(h, 3)) is None ==> link.relation
                == Relation::Related && link.unknown_title == Some(group(h, 3))
        }),
{
}

/// The URL of a match: the first group, or else the second.
pub open spec fn url_of_match(h: Hit, url: Seq<char>) -> bool {
    if has_group(h, 1) {
        url == group(h, 1)
    } else {
        has_group(h, 2) && url == group(h, 2)
    }
}

proof fn lemma_urls(found: Seq<Hit>, url: Seq<char>)
    ensures
        urls_of_hits(found).contains(url) <==> exists|i: int|
            0 <= i < found.len() && url_of_match(#[trigger] found[i], url),
    decreases found.len(),
{
    if found.len() > 0 {
        let front = found.drop_last();
        let last = found.last();
        lemma_urls(front, url);
        let list = urls_of_hits(found);
        if has_group(last, 1) || has_group(last, 2) {
            lemma_contains_last(list, url);
            assert(list.drop_last() =~= urls_of_hits(front));
        }
        if exists|i: int| 0 <= i < front.len() && url_of_match(#[trigger] front[i], url) {
            let i = choose|i: int| 0 <= i < front.len() && url_of_match(#[trigger] front[i], url);
            assert(url_of_match(found[i], url));
        }
        if url_of_match(last, url) {
            assert(url_of_match(found[found.len() - 1], url));
        }
        if exists|i: int| 0 <= i < found.len() && url_of_match(#[trigger] found[i], url) {
            let i = choose|i: int| 0 <= i < found.len() && url_of_match(#[trigger] found[i], url);
            if i < front.len() {
                assert(url_of_match(front[i], url));
            }
        }
    }
}

/// The references of a text are the URLs of its anchors and of its markdown
/// links to the web, each once and in order.
pub proof fn references_are_read_from_their_markup(content: Seq<char>, url: Seq<char>)
    ensures
        ({
            let found = regex_matches(
                r#"href="(https?://[^"\s]+)"|\]\((https?://[^)\s]+)\)"#@,
                content,
            ).0;
            external_links(content).contains(url) <==> exists|i: int|
                0 <= i < found.len() && url_of_match(#[trigger] found[i], url)
        }),
        strictly_ascending(external_links(content)),
{
    let found = regex_matches(
        r#"href="(https?://[^"\s]+)"|\]\((https?://[^)\s]+)\)"#@,
        content,
    ).0;
    lemma_urls(found, url);
    lemma_sorted_set(urls_of_hits(found));
}

// ---------------------------------------------------------------------------
// Prose
// ---------------------------------------------------------------------------

proof fn lemma_without(s: Seq<char>, set: Seq<char>)
    ensures
        forall|i: int| 0 <= i < without(s, set).len() ==> !set.contains(#[trigger] without(s, set)[i]),
        (forall|i: int| 0 <= i < s.len() ==> !set.contains(#[trigger] s[i])) ==> without(s, set)
            == s,
    decreases s.len(),
{
    if s.len() > 0 {
        let front = s.drop_last();
        lemma_without(front, set);
        let r = without(s, set);
        assert forall|i: int| 0 <= i < r.len() implies !set.contains(#[trigger] r[i]) by {
            if i < without(front, set).len() {
                assert(r[i] == without(front, set)[i]);
            }
        }
        if forall|i: int| 0 <= i < s.len() ==> !set.contains(#[trigger] s[i]) {
            assert forall|i: int| 0 <= i < front.len() implies !set.contains(#[trigger] front[i]) by {
                assert(front[i] == s[i]);
            }
            assert(!set.contains(s[s.len() - 1]));
            assert(r =~= s);
        }
    }
}

proof fn lemma_nothing_to_replace(s: Seq<char>, p: Seq<char>, by: Seq<char>)
    requires
        p.len() > 0,
        forall|i: int| 0 <= i < s.len() ==> s[i] != p[0],
    ensures
        replace(s, p, by) == s,
    decreases s.len(),
{
    if s.len() > 0 {
        if starts(s, p) {
            assert(s.take(p.len() as int)[0] == s[0]);
        }
        let rest = s.skip(1);
        assert forall|i: int| 0 <= i < rest.len() implies rest[i] != p[0] by {
            assert(rest[i] == s[i + 1]);
        }
        lemma_nothing_to_replace(rest, p, by);
        assert(seq![s[0]] + rest =~= s);
    }
}

proof fn lemma_trim_keeps(s: Seq<char>, c: char)
    requires
        forall|i: int| 0 <= i < s.len() ==> s[i] != c,
    ensures
        forall|i: int| 0 <= i < trim(s).len() ==> trim(s)[i] != c,
{
    lemma_trim_start_keeps(s, c);
    lemma_trim_end_keeps(trim_start(s), c);
}

proof fn lemma_trim_start_keeps(s: Seq<char>, c: char)
    requires
        forall|i: int| 0 <= i < s.len() ==> s[i] != c,
    ensures
        forall|i: int|
            0 <= i < trim_start(s).len() ==> trim_start(s)[i] != c,
    decreases s.len(),
{
    if s.len() > 0 && is_white_space(s[0]) {
        let rest = s.skip(1);
        assert forall|i: int| 0 <= i < rest.len() implies rest[i] != c by {
            assert(rest[i] == s[i + 1]);
        }
        lemma_trim_start_keeps(rest, c);
        assert(trim_start(s) == trim_start(rest));
    } else {
        assert(trim_start(s) == s);
    }
}

proof fn lemma_trim_end_keeps(s: Seq<char>, c: char)
    requires
        forall|i: int| 0 <= i < s.len() ==> s[i] != c,
    ensures
        forall|i: int|
            0 <= i < trim_end(s).len() ==> trim_end(s)[i] != c,
    decreases s.len(),
{
    if s.len() > 0 && is_white_space(s.last()) {
        let front = s.drop_last();
        assert forall|i: int| 0 <= i < front.len() implies front[i] != c by {
            assert(front[i] == s[i]);
        }
        lemma_trim_end_keeps(front, c);
        assert(trim_end(s) == trim_end(front));
    } else {
        assert(trim_end(s) == s);
    }
}

/// Prose is a text with each link, of whatever target, reduced to the text it
/// is shown with; no asterisk and no tick is left in it, and a text with none
/// only loses the white space around it.
pub proof fn prose_has_no_marks(text: Seq<char>)
    ensures
        ({
            let m = regex_matches(r"\[([^\]]+)\]\([^)]*\)"@, text);
            plain(text) == without_marks(rewrite(m.0, m.1, |h: Hit| group(h, 1)))
        }),
        forall|i: int|
            0 <= i < without_marks(text).len() ==> #[trigger] without_marks(text)[i] != '*'
                && without_marks(text)[i] != '`',
        (forall|i: int| 0 <= i < text.len() ==> #[trigger] text[i] != '*' && text[i] != '`')
            ==> without_marks(text) == trim(text),
{
    reveal_strlit("**");
    reveal_strlit("`*");
    let set = "`*"@;
    let a = replace(text, "**"@, ""@);
    assert(set[0] == '`' && set[1] == '*');
    assert(set.contains('`') && set.contains('*'));
    lemma_without(a, set);
    let b = without(a, set);
    assert forall|i: int| 0 <= i < b.len() implies b[i] != '*' && b[i] != '`' by {
        assert(!set.contains(b[i]));
    }
    lemma_trim_keeps(b, '*');
    lemma_trim_keeps(b, '`');
    if forall|i: int| 0 <= i < text.len() ==> #[trigger] text[i] != '*' && text[i] != '`' {
        lemma_nothing_to_replace(text, "**"@, ""@);
        assert forall|i: int| 0 <= i < text.len() implies !set.contains(#[trigger] text[i]) by {
            if set.contains(text[i]) {
                let k = choose|k: int| 0 <= k < set.len() && set[k] == text[i];
                assert(k == 0 || k == 1);
            }
        }
        lemma_without(text, set);
    }
    let m = regex_matches(r"\[([^\]]+)\]\([^)]*\)"@, text);
    assert(crate::markdown::link_text() =~= (|h: Hit| group(h, 1)));
}

// ---------------------------------------------------------------------------
// Files
// ---------------------------------------------------------------------------

/// A directory has a term exactly when it has a file of that name with the
/// ending `.md`; the terms are in order.
pub proof fn terms_are_named_by_their_files(names: Seq<Seq<char>>, term: Seq<char>)
    ensures
        md_stems(names).contains(term) <==> term.len() > 0 && names.contains(term + ".md"@),
        sorted(md_stems(names)).contains(term) <==> md_stems(names).contains(term),
        ascending(sorted(md_stems(names))),
    decreases names.len(),
{
    lemma_sorted(md_stems(names));
    reveal_strlit(".md");
    if names.len() > 0 {
        let front = names.drop_last();
        let name = names.last();
        terms_are_named_by_their_files(front, term);
        lemma_contains_last(names, term + ".md"@);
        let list = md_stems(names);
        if name == term + ".md"@ {
            assert(name.take(name.len() - 3) =~= term);
            assert(name.skip(name.len() - 3) =~= ".md"@);
        }
        if name.len() > 3 && ends(name, ".md"@) {
            assert(name =~= name.take(name.len() - 3) + ".md"@);
            lemma_contains_last(list, term);
            assert(list.drop_last() =~= md_stems(front));
        }
    }
}

/// The ring of a level is the first of the manifest with that level.
pub proof fn the_first_ring_of_a_level_counts(rings: Seq<RingModel>, level: u32)
    ensures
        match ring_at(rings, level) {
            Some(r) => exists|i: int|
                0 <= i < rings.len() && #[trigger] rings[i] == r && r.level == level && forall|
                    j: int,
                |
                    0 <= j < i ==> (#[trigger] rings[j]).level != level,
            None => forall|j: int| 0 <= j < rings.len() ==> (#[trigger] rings[j]).level != level,
        },
    decreases rings.len(),
{
    if rings.len() > 0 && rings[0].level != level {
        let rest = rings.skip(1);
        the_first_ring_of_a_level_counts(rest, level);
        assert forall|j: int| 0 < j < rings.len() implies #[trigger] rings[j] == rest[j - 1] by {}
        if let Some(r) = ring_at(rest, level) {
            let i = choose|i: int|
                0 <= i < rest.len() && #[trigger] rest[i] == r && r.level == level && forall|j: int|
                    0 <= j < i ==> (#[trigger] rest[j]).level != level;
            assert(rings[i + 1] == r);
            assert forall|j: int| 0 <= j < i + 1 implies (#[trigger] rings[j]).level != level by {
                if j > 0 {
                    assert(rest[j - 1].level != level);
                }
            }
        } else {
            assert forall|j: int| 0 <= j < rings.len() implies (
            #[trigger] rings[j]).level != level by {
                if j > 0 {
                    assert(rest[j - 1].level != level);
                }
            }
        }
    } else if rings.len() > 0 {
        assert(rings[0].level == level);
    }
}

/// A node has the title it was given, the sections of its text by their names
/// and the text itself.
pub proof fn a_node_has_its_sections(content: Seq<char>, title: Seq<char>)
    ensures
        ({
            let node = node_of(content, title);
            &&& node.title == title
            &&& node.ontology == section(content, "Ontology"@)
            &&& node.axiology == section(content, "Axiology"@)
            &&& node.ethics == section(content, "Ethics"@)
            &&& node.epistemology == section(content, "Epistemology"@)
            &&& node.raw == content
        }),
{
}

/// A text is rewritten match by match: what stands before a match is kept,
/// the match becomes what is rendered for it, and what follows the last match
/// is kept.
pub proof fn what_stands_between_matches_is_kept(
    hits: Seq<Hit>,
    h: Hit,
    rest: Seq<char>,
    render: spec_fn(Hit) -> Seq<char>,
)
    ensures
        rewrite(Seq::empty(), rest, render) == rest,
        rewrite(hits.push(h), rest, render) == rewrite(hits, h.before, render) + render(h) + rest,
{
    assert(hits.push(h).drop_last() =~= hits);
    assert(Seq::<char>::empty() + rest =~= rest);
}

/// A heading's marks are taken off as often as they stand at the front, and
/// nothing else is.
pub proof fn marks_are_taken_off_the_front(s: Seq<char>, p: Seq<char>)
    requires
        p.len() > 0,
    ensures
        !starts(s, p) ==> strip_prefixes(s, p) == s,
        strip_prefixes(p + s, p) == strip_prefixes(s, p),
{
    let t = p + s;
    assert(t.take(p.len() as int) =~= p);
    assert(t.skip(p.len() as int) =~= s);
}

}
