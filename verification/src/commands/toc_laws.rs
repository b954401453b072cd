//! What an index lists, and what it finds wrong.

use vstd::prelude::*;

use crate::commands::semantic_laws::{first_file, lemma_file_of};
use crate::commands::sources::file_of;
use crate::commands::toc::{
    base_by_default, bullet_of, bullets, checked, declared, definition_fault, entry_in,
    entry_problems, formatted, missing_bullets, one_break, paragraph, path_between, section_text,
    sections_text, toc_output, unringed_text,
    found_entries, index_size, markdown_of, missing_problems, missing_terms, plain_sentence,
    problem_lines, section_of, section_problems, sections, toc_of, toc_problems, unringed_entries,
    unringed_problems, IndexModel, OutputModel, SectionModel, TocModel,
};
use crate::config::{by_level, rings_stand_by_level, ConfigModel, RingModel};
use crate::markdown::{definition, plain, terms_of, title, FileModel};
use crate::number::decimal;
use crate::order::lemma_contains_last;
use crate::pattern::{group, regex_matches, rewrite, Hit};
use crate::text::{ends, strip_trailing, trim, trim_start};

verus! {

// ---------------------------------------------------------------------------
// Entries
// ---------------------------------------------------------------------------

/// Where the node of a term stands under a directory.
pub open spec fn node_file(base: Seq<char>, term: Seq<char>) -> Seq<char> {
    if base.len() == 0 {
        term + ".md"@
    } else {
        base + "/"@ + term + ".md"@
    }
}

/// A text with the target of each node link put under a directory; the anchor
/// and the title of a link stay.
pub open spec fn put_under(text: Seq<char>, base: Seq<char>) -> Seq<char> {
    let m = regex_matches(r#"\]\(\./([a-z0-9_-]+)\.md(#[^)\s]*)?((?:\s+"[^"]*")?)\)"#@, text);
    rewrite(
        m.0,
        m.1,
        |h: Hit|
            "]("@ + (if base.len() == 0 {
                Seq::empty()
            } else {
                base + "/"@
            }) + group(h, 1) + ".md"@ + group(h, 2) + group(h, 3) + ")"@,
    )
}

/// An entry has the term, the title of its text or else the term, the path of
/// its file, the lay definition with its links put under the directory, and
/// that definition as prose; a definition or a prose of no characters is none.
pub proof fn an_entry_says_what_its_text_says(
    term: Seq<char>,
    content: Seq<char>,
    base: Seq<char>,
)
    ensures
        ({
            let e = entry_in(term, content, base);
            &&& e.term == term
            &&& title(content) matches Some(t) ==> e.title == t
            &&& title(content) is None ==> e.title == term
            &&& e.path == node_file(base, term)
            &&& e.definition is Some <==> definition(content) is Some && put_under(
                definition(content)->Some_0,
                base,
            ).len() > 0
            &&& e.definition matches Some(d) ==> d == put_under(definition(content)->Some_0, base)
            &&& e.definition_text is Some <==> e.definition is Some && plain(
                e.definition->Some_0,
            ).len() > 0
            &&& e.definition_text matches Some(t) ==> t == plain(e.definition->Some_0)
        }),
{
    let r = |h: Hit|
        "]("@ + (if base.len() == 0 {
            Seq::empty()
        } else {
            base + "/"@
        }) + group(h, 1) + ".md"@ + group(h, 2) + group(h, 3) + ")"@;
    assert(crate::commands::toc::rebased_target(base) =~= r);
}

/// A bullet names the entry by its title, links its path and says its
/// definition, or that it has none.
pub proof fn a_bullet_links_its_entry(e: IndexModel)
    ensures
        e.definition matches Some(d) ==> bullet_of(e) == "- [**"@ + e.title + "**]("@ + e.path
            + ") — "@ + d + "\n"@,
        e.definition is None ==> bullet_of(e) == "- [**"@ + e.title + "**]("@ + e.path + ") — "@
            + "*(no lay definition)*"@ + "\n"@,
{
}

// ---------------------------------------------------------------------------
// The index
// ---------------------------------------------------------------------------

/// A list of terms has one at a place whose first file gives this entry.
pub open spec fn listed_from(
    terms: Seq<Seq<char>>,
    all: Seq<FileModel>,
    base: Seq<char>,
    e: IndexModel,
    i: int,
    k: int,
) -> bool {
    &&& 0 <= i < terms.len()
    &&& first_file(all, terms[i], k)
    &&& e == entry_in(terms[i], all[k].content, base)
}

proof fn lemma_found(
    terms: Seq<Seq<char>>,
    all: Seq<FileModel>,
    base: Seq<char>,
    e: IndexModel,
)
    ensures
        found_entries(terms, all, base).contains(e) <==> exists|i: int, k: int| #[trigger]
            listed_from(terms, all, base, e, i, k),
    decreases terms.len(),
{
    if terms.len() > 0 {
        let front = terms.drop_last();
        let t = terms.last();
        lemma_found(front, all, base, e);
        lemma_file_of(all, t);
        let list = found_entries(terms, all, base);
        if let Some(f) = file_of(all, t) {
            lemma_contains_last(list, e);
            assert(list.drop_last() =~= found_entries(front, all, base));
            let k = choose|k: int| #[trigger] first_file(all, t, k) && all[k] == f;
            if e == entry_in(t, f.content, base) {
                assert(listed_from(terms, all, base, e, terms.len() - 1, k));
            }
        }
        if exists|i: int, k: int| #[trigger] listed_from(front, all, base, e, i, k) {
            let (i, k) = choose|i: int, k: int| #[trigger] listed_from(front, all, base, e, i, k);
            assert(listed_from(terms, all, base, e, i, k));
        }
        if exists|i: int, k: int| #[trigger] listed_from(terms, all, base, e, i, k) {
            let (i, k) = choose|i: int, k: int| #[trigger] listed_from(terms, all, base, e, i, k);
            if i < front.len() {
                assert(listed_from(front, all, base, e, i, k));
            } else {
                if let Some(f) = file_of(all, t) {
                    let m = choose|m: int| #[trigger] first_file(all, t, m) && all[m] == f;
                    if m < k {
                        assert(all[m].term != t);
                    }
                    if k < m {
                        assert(all[k].term != t);
                    }
                } else {
                    assert(all[k].term != t);
                }
            }
        }
    }
}

proof fn lemma_missing(terms: Seq<Seq<char>>, all: Seq<FileModel>)
    ensures
        missing_terms(terms, all) == terms.filter(|t: Seq<char>| !terms_of(all).contains(t)),
    decreases terms.len(),
{
    reveal(Seq::filter);
    if terms.len() > 0 {
        let t = terms.last();
        lemma_missing(terms.drop_last(), all);
        lemma_file_of(all, t);
        if let Some(f) = file_of(all, t) {
            let k = choose|k: int| #[trigger] first_file(all, t, k) && all[k] == f;
            assert(terms_of(all)[k] == t);
        } else {
            if terms_of(all).contains(t) {
                let k = choose|k: int| 0 <= k < terms_of(all).len() && terms_of(all)[k] == t;
                assert(all[k].term == t);
            }
        }
    }
}

/// The section of a ring has its level, its name and its description; the
/// entries of just those of its terms that have a file, each from the first
/// file of its term; and the others, in order, as missing.
pub proof fn a_section_lists_the_terms_of_its_ring(
    r: RingModel,
    all: Seq<FileModel>,
    base: Seq<char>,
    e: IndexModel,
)
    ensures
        ({
            let s = section_of(r, all, base);
            &&& s.level == r.level
            &&& s.name == r.name
            &&& s.description == r.description
            &&& s.terms.contains(e) <==> exists|i: int, k: int| #[trigger]
                listed_from(r.terms, all, base, e, i, k)
            &&& s.missing == r.terms.filter(|t: Seq<char>| !terms_of(all).contains(t))
        }),
{
    lemma_found(r.terms, all, base, e);
    lemma_missing(r.terms, all);
}

/// The entries of a section stand in the order of the ring's terms: each
/// further term with a file adds its entry behind the others.
pub proof fn entries_stand_in_the_order_of_the_ring(
    terms: Seq<Seq<char>>,
    t: Seq<char>,
    all: Seq<FileModel>,
    base: Seq<char>,
    k: int,
)
    requires
        first_file(all, t, k),
    ensures
        found_entries(terms.push(t), all, base) == found_entries(terms, all, base).push(
            entry_in(t, all[k].content, base),
        ),
{
    assert(terms.push(t).drop_last() =~= terms);
    lemma_file_of(all, t);
    if let Some(f) = file_of(all, t) {
        let m = choose|m: int| #[trigger] first_file(all, t, m) && all[m] == f;
        if m < k {
            assert(all[m].term != t);
        }
        if k < m {
            assert(all[k].term != t);
        }
    } else {
        assert(all[k].term != t);
    }
}

/// A ring of a list gives this section, if it is of the level asked for.
pub open spec fn section_from(
    rings: Seq<RingModel>,
    ring: Option<u32>,
    all: Seq<FileModel>,
    base: Seq<char>,
    s: SectionModel,
    i: int,
) -> bool {
    &&& 0 <= i < rings.len()
    &&& (ring matches Some(level) ==> rings[i].level == level)
    &&& s == section_of(rings[i], all, base)
}

proof fn lemma_sections_from(
    rings: Seq<RingModel>,
    ring: Option<u32>,
    all: Seq<FileModel>,
    base: Seq<char>,
    s: SectionModel,
)
    ensures
        sections(rings, ring, all, base).contains(s) <==> exists|i: int| #[trigger]
            section_from(rings, ring, all, base, s, i),
        ring is None ==> sections(rings, ring, all, base).len() == rings.len(),
    decreases rings.len(),
{
    if rings.len() > 0 {
        let front = rings.drop_last();
        let last = rings.last();
        lemma_sections_from(front, ring, all, base, s);
        let list = sections(rings, ring, all, base);
        let kept = ring is None || ring->Some_0 == last.level;
        if kept {
            lemma_contains_last(list, s);
            assert(list.drop_last() =~= sections(front, ring, all, base));
            if s == section_of(last, all, base) {
                assert(section_from(rings, ring, all, base, s, rings.len() - 1));
            }
        }
        if exists|i: int| #[trigger] section_from(front, ring, all, base, s, i) {
            let i = choose|i: int| #[trigger] section_from(front, ring, all, base, s, i);
            assert(section_from(rings, ring, all, base, s, i));
        }
        if exists|i: int| #[trigger] section_from(rings, ring, all, base, s, i) {
            let i = choose|i: int| #[trigger] section_from(rings, ring, all, base, s, i);
            if i < front.len() {
                assert(section_from(front, ring, all, base, s, i));
            }
        }
    }
}

/// The file at a place is that of an unringed entry.
pub open spec fn unringed_from(
    rings: Seq<RingModel>,
    all: Seq<FileModel>,
    base: Seq<char>,
    n: nat,
    e: IndexModel,
    i: int,
) -> bool {
    &&& 0 <= i < n
    &&& i < all.len()
    &&& forall|j: int| 0 <= j < rings.len() ==> !(#[trigger] rings[j]).terms.contains(all[i].term)
    &&& e == entry_in(all[i].term, all[i].content, base)
}

proof fn lemma_unringed(
    rings: Seq<RingModel>,
    all: Seq<FileModel>,
    base: Seq<char>,
    n: nat,
    e: IndexModel,
)
    requires
        n <= all.len(),
    ensures
        unringed_entries(rings, all, base, n).contains(e) <==> exists|i: int| #[trigger]
            unringed_from(rings, all, base, n, e, i),
    decreases n,
{
    if n > 0 {
        let m = (n - 1) as nat;
        lemma_unringed(rings, all, base, m, e);
        let list = unringed_entries(rings, all, base, n);
        let f = all[n - 1];
        if !declared(rings, f.term) {
            lemma_contains_last(list, e);
            assert(list.drop_last() =~= unringed_entries(rings, all, base, m));
            assert forall|j: int| 0 <= j < rings.len() implies !(
            #[trigger] rings[j]).terms.contains(f.term) by {}
            if e == entry_in(f.term, f.content, base) {
                assert(unringed_from(rings, all, base, n, e, n - 1));
            }
        } else {
            assert(!unringed_from(rings, all, base, n, e, n - 1));
        }
        if exists|i: int| #[trigger] unringed_from(rings, all, base, m, e, i) {
            let i = choose|i: int| #[trigger] unringed_from(rings, all, base, m, e, i);
            assert(unringed_from(rings, all, base, n, e, i));
        }
        if exists|i: int| #[trigger] unringed_from(rings, all, base, n, e, i) {
            let i = choose|i: int| #[trigger] unringed_from(rings, all, base, n, e, i);
            if i < n - 1 {
                assert(unringed_from(rings, all, base, m, e, i));
            }
        }
    }
}

/// An index has the name and the description of the manifest, its prefix
/// without slashes at the end, and a section for each ring of the manifest,
/// or for those of the level asked for.
pub proof fn an_index_has_a_section_for_each_ring(
    config: ConfigModel,
    all: Seq<FileModel>,
    ring: Option<u32>,
    base: Seq<char>,
    s: SectionModel,
)
    requires
        toc_of(config, all, ring, base) is Ok,
    ensures
        ({
            let toc = toc_of(config, all, ring, base)->Ok_0;
            &&& toc.name == config.meta.name
            &&& toc.description == config.meta.description
            &&& toc.base == strip_trailing(base, "/"@)
            &&& toc.rings.contains(s) <==> exists|i: int| #[trigger]
                section_from(config.rings, ring, all, strip_trailing(base, "/"@), s, i)
        }),
{
    let prefix = strip_trailing(base, "/"@);
    let sorted = by_level(config.rings);
    lemma_sections_from(sorted, ring, all, prefix, s);
    rings_stand_by_level(config.rings);
    if exists|i: int| #[trigger] section_from(sorted, ring, all, prefix, s, i) {
        let i = choose|i: int| #[trigger] section_from(sorted, ring, all, prefix, s, i);
        assert(sorted.contains(sorted[i]));
        let j = choose|j: int| 0 <= j < config.rings.len() && config.rings[j] == sorted[i];
        assert(section_from(config.rings, ring, all, prefix, s, j));
    }
    if exists|i: int| #[trigger] section_from(config.rings, ring, all, prefix, s, i) {
        let i = choose|i: int| #[trigger] section_from(config.rings, ring, all, prefix, s, i);
        assert(config.rings.contains(config.rings[i]));
        assert(sorted.contains(config.rings[i]));
        let j = choose|j: int| 0 <= j < sorted.len() && sorted[j] == config.rings[i];
        assert(section_from(sorted, ring, all, prefix, s, j));
    }
}

/// An index of the whole ontology lists, behind its rings, the entries of
/// just those files whose terms no ring declares; an index of one ring lists
/// none.
pub proof fn undeclared_terms_are_listed_apart(
    config: ConfigModel,
    all: Seq<FileModel>,
    ring: Option<u32>,
    base: Seq<char>,
    e: IndexModel,
)
    requires
        toc_of(config, all, ring, base) is Ok,
    ensures
        ring is Some ==> toc_of(config, all, ring, base)->Ok_0.unringed.len() == 0,
        ring is None ==> (toc_of(config, all, ring, base)->Ok_0.unringed.contains(e)
            <==> exists|i: int| #[trigger]
            unringed_from(
                config.rings,
                all,
                strip_trailing(base, "/"@),
                all.len(),
                e,
                i,
            )),
{
    let prefix = strip_trailing(base, "/"@);
    let sorted = by_level(config.rings);
    rings_stand_by_level(config.rings);
    lemma_unringed(sorted, all, prefix, all.len(), e);
    assert forall|i: int| #[trigger]
        unringed_from(sorted, all, prefix, all.len(), e, i) implies unringed_from(
        config.rings,
        all,
        prefix,
        all.len(),
        e,
        i,
    ) by {
        assert forall|j: int| 0 <= j < config.rings.len() implies !(
        #[trigger] config.rings[j]).terms.contains(all[i].term) by {
            assert(config.rings.contains(config.rings[j]));
            assert(sorted.contains(config.rings[j]));
            let m = choose|m: int| 0 <= m < sorted.len() && sorted[m] == config.rings[j];
            assert(!sorted[m].terms.contains(all[i].term));
        }
    }
    assert forall|i: int| #[trigger]
        unringed_from(config.rings, all, prefix, all.len(), e, i) implies unringed_from(
        sorted,
        all,
        prefix,
        all.len(),
        e,
        i,
    ) by {
        assert forall|j: int| 0 <= j < sorted.len() implies !(
        #[trigger] sorted[j]).terms.contains(all[i].term) by {
            assert(sorted.contains(sorted[j]));
            let m = choose|m: int| 0 <= m < config.rings.len() && config.rings[m] == sorted[j];
            assert(!config.rings[m].terms.contains(all[i].term));
        }
    }
}

// ---------------------------------------------------------------------------
// Problems
// ---------------------------------------------------------------------------

/// A character that a line of prose does not begin with, and those that it
/// does not begin with where a space follows.
pub open spec fn opens_block(t: Seq<char>) -> bool {
    ||| t[0] == '>' || t[0] == '#' || t[0] == '|' || t[0] == '<'
    ||| t.len() > 1 && (t[0] == '-' || t[0] == '+' || t[0] == '*') && t[1] == ' '
    ||| t.len() > 1 && t[0] == '!' && t[1] == '['
    ||| t.len() > 1 && t[0] == '[' && t[1] == '^'
    ||| t.len() > 2 && t[0] == '`' && t[1] == '`' && t[2] == '`'
    ||| t.len() > 2 && t[0] == '~' && t[1] == '~' && t[2] == '~'
}

proof fn lemma_begins(t: Seq<char>, a: Seq<char>)
    ensures
        crate::text::starts(t, a) <==> a.len() <= t.len() && forall|i: int|
            0 <= i < a.len() ==> t[i] == a[i],
{
    if crate::text::starts(t, a) {
        assert forall|i: int| 0 <= i < a.len() implies t[i] == a[i] by {
            assert(t.take(a.len() as int)[i] == t[i]);
        }
    }
    if a.len() <= t.len() && forall|i: int| 0 <= i < a.len() ==> t[i] == a[i] {
        assert(t.take(a.len() as int) =~= a);
    }
}

proof fn lemma_block(t: Seq<char>)
    requires
        t.len() > 0,
    ensures
        crate::commands::toc::starts_block(t) <==> opens_block(t),
{
    reveal_strlit(">");
    reveal_strlit("#");
    reveal_strlit("- ");
    reveal_strlit("+ ");
    reveal_strlit("* ");
    reveal_strlit("|");
    reveal_strlit("```");
    reveal_strlit("~~~");
    reveal_strlit("<");
    reveal_strlit("![");
    reveal_strlit("[^");
    lemma_begins(t, ">"@);
    lemma_begins(t, "#"@);
    lemma_begins(t, "- "@);
    lemma_begins(t, "+ "@);
    lemma_begins(t, "* "@);
    lemma_begins(t, "|"@);
    lemma_begins(t, "```"@);
    lemma_begins(t, "~~~"@);
    lemma_begins(t, "<"@);
    lemma_begins(t, "!["@);
    lemma_begins(t, "[^"@);
}

/// A list item of a numbered list: digits, a full stop or a bracket, a space.
pub open spec fn numbered(t: Seq<char>, n: int) -> bool {
    &&& 0 < n
    &&& n + 1 < t.len()
    &&& forall|i: int| 0 <= i < n ==> '0' <= #[trigger] t[i] <= '9'
    &&& t[n] == '.' || t[n] == ')'
    &&& t[n + 1] == ' '
}

proof fn lemma_digits(t: Seq<char>)
    ensures
        crate::commands::toc::leading_digits(t) <= t.len(),
        forall|i: int|
            0 <= i < crate::commands::toc::leading_digits(t) ==> '0' <= #[trigger] t[i] <= '9',
        crate::commands::toc::leading_digits(t) < t.len() ==> !('0'
            <= t[crate::commands::toc::leading_digits(t) as int] <= '9'),
    decreases t.len(),
{
    if t.len() > 0 && '0' <= t[0] <= '9' {
        let rest = t.skip(1);
        lemma_digits(rest);
        assert forall|i: int|
            0 <= i < crate::commands::toc::leading_digits(t) implies '0' <= #[trigger] t[i]
            <= '9' by {
            if i > 0 {
                assert(t[i] == rest[i - 1]);
            }
        }
    }
}

/// A line is a plain sentence exactly when something stands on it and, after
/// white space, it begins neither a block of markup nor an item of a numbered
/// list.
pub proof fn a_plain_sentence_begins_no_block(line: Seq<char>)
    ensures
        plain_sentence(line) <==> trim_start(line).len() > 0 && !opens_block(trim_start(line))
            && forall|n: int| !(#[trigger] numbered(trim_start(line), n)),
{
    let t = trim_start(line);
    if t.len() > 0 {
        lemma_block(t);
        lemma_digits(t);
        let n = crate::commands::toc::leading_digits(t) as int;
        reveal_strlit(". ");
        reveal_strlit(") ");
        let rest = t.skip(n);
        lemma_begins(rest, ". "@);
        lemma_begins(rest, ") "@);
        if crate::commands::toc::ordered_item(t) {
            assert(rest[0] == t[n] && rest[1] == t[n + 1]);
            assert(numbered(t, n));
        }
        if exists|m: int| #[trigger] numbered(t, m) {
            let m = choose|m: int| #[trigger] numbered(t, m);
            if m < n {
                assert('0' <= t[m] <= '9');
            }
            if n < m {
                assert('0' <= t[n] <= '9');
            }
            assert(rest[0] == t[n] && rest[1] == t[n + 1]);
        }
    }
}

/// What is wrong with an entry: it has no definition, or one that is no plain
/// sentence, or one of which nothing is left as prose. The beginning of a long
/// definition is shown.
pub proof fn what_is_wrong_with_a_definition(e: IndexModel)
    ensures
        e.definition is None ==> definition_fault(e) == Some(
            "Ontology section is missing or empty (no lay definition)"@,
        ),
        e.definition matches Some(d) ==> {
            &&& !plain_sentence(d) && trim(d).len() <= 60 ==> definition_fault(e) == Some(
                "Ontology section does not open with a plain sentence: "@ + ("\""@ + trim(d)
                    + "\""@),
            )
            &&& !plain_sentence(d) && trim(d).len() > 60 ==> definition_fault(e) == Some(
                "Ontology section does not open with a plain sentence: "@ + ("\""@ + trim(d).take(
                    60,
                ) + "…\""@),
            )
            &&& plain_sentence(d) && e.definition_text is None ==> definition_fault(e) == Some(
                "lay definition has no text once markdown is stripped"@,
            )
            &&& plain_sentence(d) && e.definition_text is Some ==> definition_fault(e) is None
        },
{
}

/// An entry of a list is at fault.
pub open spec fn at_fault(list: Seq<IndexModel>, p: (Seq<char>, Seq<char>), i: int) -> bool {
    0 <= i < list.len() && p.0 == list[i].term && definition_fault(list[i]) == Some(p.1)
}

proof fn lemma_entries_at_fault(list: Seq<IndexModel>, n: nat, p: (Seq<char>, Seq<char>))
    requires
        n <= list.len(),
    ensures
        entry_problems(list, n).contains(p) <==> exists|i: int| #[trigger]
            at_fault(list, p, i) && i < n,
    decreases n,
{
    if n > 0 {
        let m = (n - 1) as nat;
        lemma_entries_at_fault(list, m, p);
        let now = entry_problems(list, n);
        if definition_fault(list[n - 1]) is Some {
            lemma_contains_last(now, p);
            assert(now.drop_last() =~= entry_problems(list, m));
            if p == (list[n - 1].term, definition_fault(list[n - 1])->Some_0) {
                assert(at_fault(list, p, n - 1));
            }
        }
    }
}

proof fn lemma_unringed_at_fault(list: Seq<IndexModel>, n: nat, p: (Seq<char>, Seq<char>))
    requires
        n <= list.len(),
    ensures
        unringed_problems(list, n).contains(p) <==> exists|i: int|
            0 <= i < n && (#[trigger] list[i]).term == p.0 && (definition_fault(list[i]) == Some(
                p.1,
            ) || p.1 == "not declared in any ring of existence.toml"@),
    decreases n,
{
    if n > 0 {
        let m = (n - 1) as nat;
        lemma_unringed_at_fault(list, m, p);
        let front = unringed_problems(list, m);
        let now = unringed_problems(list, n);
        let e = list[n - 1];
        let u = (e.term, "not declared in any ring of existence.toml"@);
        match definition_fault(e) {
            Some(message) => {
                let middle = front.push((e.term, message));
                lemma_contains_last(now, p);
                assert(now.drop_last() =~= middle);
                lemma_contains_last(middle, p);
                assert(middle.drop_last() =~= front);
            },
            None => {
                lemma_contains_last(now, p);
                assert(now.drop_last() =~= front);
            },
        }
        assert(now.contains(p) <==> front.contains(p) || p == u || (definition_fault(e) is Some
            && p == (e.term, definition_fault(e)->Some_0)));
    }
}

/// A problem of a ring section: an entry at fault, or a term without a file.
pub open spec fn section_problem(
    base: Seq<char>,
    s: SectionModel,
    p: (Seq<char>, Seq<char>),
) -> bool {
    ||| exists|i: int| #[trigger] at_fault(s.terms, p, i)
    ||| s.missing.contains(p.0) && p.1 == "declared in ring "@ + decimal(s.level as nat)
        + " of existence.toml but "@ + node_file(base, p.0) + " does not exist"@
}

/// A list in three parts has what one of them has.
pub proof fn lemma_three_parts<A>(a: Seq<A>, b: Seq<A>, c: Seq<A>, x: A)
    ensures
        (a + b + c).contains(x) <==> a.contains(x) || b.contains(x) || c.contains(x),
{
    let s = a + b + c;
    if a.contains(x) {
        let i = choose|i: int| 0 <= i < a.len() && a[i] == x;
        assert(s[i] == x);
    }
    if b.contains(x) {
        let i = choose|i: int| 0 <= i < b.len() && b[i] == x;
        assert(s[a.len() + i] == x);
    }
    if c.contains(x) {
        let i = choose|i: int| 0 <= i < c.len() && c[i] == x;
        assert(s[a.len() + b.len() + i] == x);
    }
    if s.contains(x) {
        let i = choose|i: int| 0 <= i < s.len() && s[i] == x;
        if i < a.len() {
            assert(a[i] == x);
        } else if i < a.len() + b.len() {
            assert(b[i - a.len()] == x);
        } else {
            assert(c[i - a.len() - b.len()] == x);
        }
    }
}

proof fn lemma_missing_problem(
    base: Seq<char>,
    level: u32,
    list: Seq<Seq<char>>,
    p: (Seq<char>, Seq<char>),
)
    ensures
        missing_problems(base, level, list).contains(p) <==> list.contains(p.0) && p.1
            == "declared in ring "@ + decimal(level as nat) + " of existence.toml but "@
            + node_file(base, p.0) + " does not exist"@,
{
    let all = missing_problems(base, level, list);
    if all.contains(p) {
        let i = choose|i: int| 0 <= i < all.len() && all[i] == p;
        assert(list[i] == p.0);
    }
    if list.contains(p.0) {
        let i = choose|i: int| 0 <= i < list.len() && list[i] == p.0;
        assert(all[i].0 == p.0);
        if p.1 == "declared in ring "@ + decimal(level as nat) + " of existence.toml but "@
            + node_file(base, p.0) + " does not exist"@ {
            assert(all[i] == p);
        }
    }
}

proof fn lemma_section_problem(
    base: Seq<char>,
    list: Seq<SectionModel>,
    n: nat,
    p: (Seq<char>, Seq<char>),
)
    requires
        n <= list.len(),
    ensures
        section_problems(base, list, n).contains(p) <==> exists|i: int|
            0 <= i < n && section_problem(base, #[trigger] list[i], p),
    decreases n,
{
    if n > 0 {
        let m = (n - 1) as nat;
        lemma_section_problem(base, list, m, p);
        let r = list[n - 1];
        lemma_three_parts(
            section_problems(base, list, m),
            entry_problems(r.terms, r.terms.len()),
            missing_problems(base, r.level, r.missing),
            p,
        );
        lemma_entries_at_fault(r.terms, r.terms.len(), p);
        lemma_missing_problem(base, r.level, r.missing, p);
        if exists|i: int| #[trigger] at_fault(r.terms, p, i) {
            let i = choose|i: int| #[trigger] at_fault(r.terms, p, i);
            assert(at_fault(r.terms, p, i) && i < r.terms.len());
        }
    }
}

/// The problems of an index are just these: an entry of a ring whose
/// definition is at fault, a term of a ring without a file, and for each
/// unringed entry that no ring declares it and, if so, its fault.
pub proof fn an_index_has_just_these_problems(toc: TocModel, p: (Seq<char>, Seq<char>))
    ensures
        toc_problems(toc).contains(p) <==> {
            ||| exists|i: int|
                0 <= i < toc.rings.len() && section_problem(toc.base, #[trigger] toc.rings[i], p)
            ||| exists|i: int|
                0 <= i < toc.unringed.len() && (#[trigger] toc.unringed[i]).term == p.0 && (
                definition_fault(toc.unringed[i]) == Some(p.1) || p.1
                    == "not declared in any ring of existence.toml"@)
        },
{
    lemma_section_problem(toc.base, toc.rings, toc.rings.len(), p);
    lemma_unringed_at_fault(toc.unringed, toc.unringed.len(), p);
    let a = section_problems(toc.base, toc.rings, toc.rings.len());
    let b = unringed_problems(toc.unringed, toc.unringed.len());
    let none = Seq::<(Seq<char>, Seq<char>)>::empty();
    lemma_three_parts(a, b, none, p);
    assert(a + b + none =~= a + b);
}

/// A check of an index says that it found no problem, with the number of its
/// terms, or gives a line for each problem, with their number.
pub proof fn a_check_counts_what_it_found(toc: TocModel)
    ensures
        toc_problems(toc).len() == 0 ==> checked(toc) == OutputModel::Clean(
            "toc: "@ + decimal(index_size(toc)) + " term(s), no problems."@,
        ),
        toc_problems(toc).len() > 0 ==> checked(toc) == OutputModel::Problems(
            problem_lines(toc_problems(toc)),
            decimal(toc_problems(toc).len()) + " toc problem(s) found"@,
        ),
        forall|i: int|
            0 <= i < toc_problems(toc).len() ==> #[trigger] problem_lines(toc_problems(toc))[i]
                == toc_problems(toc)[i].0 + ": "@ + toc_problems(toc)[i].1,
{
}

/// The names of the formats of an index.
pub proof fn an_index_goes_by_the_names_of_its_formats(toc: TocModel, format: Seq<char>)
    ensures
        formatted(toc, "markdown"@) == Ok::<OutputModel, Seq<char>>(
            OutputModel::Markdown(markdown_of(toc)),
        ),
        formatted(toc, "md"@) == Ok::<OutputModel, Seq<char>>(
            OutputModel::Markdown(markdown_of(toc)),
        ),
        formatted(toc, "json"@) == Ok::<OutputModel, Seq<char>>(OutputModel::Json(toc)),
        format != "markdown"@ && format != "md"@ && format != "json"@ ==> formatted(toc, format)
            == Err::<OutputModel, Seq<char>>(
            "Unknown toc format '"@ + format + "' (expected \"markdown\" or \"json\")"@,
        ),
{
    reveal_strlit("markdown");
    reveal_strlit("md");
    reveal_strlit("json");
    assert("markdown"@.len() == 8 && "md"@.len() == 2 && "json"@.len() == 4);
}

// ---------------------------------------------------------------------------
// The index in markdown
// ---------------------------------------------------------------------------

proof fn lemma_bullets_more(list: Seq<IndexModel>, e: IndexModel, n: nat)
    requires
        n <= list.len(),
    ensures
        bullets(list.push(e), n) == bullets(list, n),
    decreases n,
{
    if n > 0 {
        lemma_bullets_more(list, e, (n - 1) as nat);
    }
}

proof fn lemma_missing_more(base: Seq<char>, list: Seq<Seq<char>>, term: Seq<char>, n: nat)
    requires
        n <= list.len(),
    ensures
        missing_bullets(base, list.push(term), n) == missing_bullets(base, list, n),
    decreases n,
{
    if n > 0 {
        lemma_missing_more(base, list, term, (n - 1) as nat);
    }
}

proof fn lemma_sections_more(base: Seq<char>, list: Seq<SectionModel>, r: SectionModel, n: nat)
    requires
        n <= list.len(),
    ensures
        sections_text(base, list.push(r), n) == sections_text(base, list, n),
    decreases n,
{
    if n > 0 {
        lemma_sections_more(base, list, r, (n - 1) as nat);
    }
}

/// Bullets follow each other: one for each entry, then one for each missing
/// term that names the file it would have.
pub proof fn bullets_follow_each_other(
    list: Seq<IndexModel>,
    e: IndexModel,
    base: Seq<char>,
    missing: Seq<Seq<char>>,
    term: Seq<char>,
)
    ensures
        bullets(Seq::empty(), 0) == Seq::<char>::empty(),
        bullets(list.push(e), list.len() + 1) == bullets(list, list.len()) + bullet_of(e),
        missing_bullets(base, Seq::empty(), 0) == Seq::<char>::empty(),
        missing_bullets(base, missing.push(term), missing.len() + 1) == missing_bullets(
            base,
            missing,
            missing.len(),
        ) + "- `"@ + term + "` — *missing: no `"@ + node_file(base, term) + "`*\n"@,
{
    lemma_bullets_more(list, e, list.len());
    lemma_missing_more(base, missing, term, missing.len());
}

/// A ring has a heading with its level and name, its description as a
/// paragraph if it has one, its bullets, and an empty line behind them.
pub proof fn a_ring_is_written_under_its_heading(base: Seq<char>, r: SectionModel)
    ensures
        ({
            let heading = "## Ring "@ + decimal(r.level as nat) + " — "@ + r.name + "\n\n"@;
            let entries = bullets(r.terms, r.terms.len()) + missing_bullets(
                base,
                r.missing,
                r.missing.len(),
            );
            let ending = if r.terms.len() + r.missing.len() > 0 {
                "\n"@
            } else {
                Seq::empty()
            };
            &&& r.description.len() == 0 ==> section_text(base, r) == heading + entries + ending
            &&& r.description.len() > 0 ==> section_text(base, r) == heading + r.description
                + "\n\n"@ + entries + ending
        }),
{
    let heading = "## Ring "@ + decimal(r.level as nat) + " — "@ + r.name + "\n\n"@;
    let first = bullets(r.terms, r.terms.len());
    let second = missing_bullets(base, r.missing, r.missing.len());
    reveal_strlit("");
    let ending = if r.terms.len() + r.missing.len() > 0 {
        "\n"@
    } else {
        Seq::empty()
    };
    assert(""@ =~= Seq::<char>::empty());
    assert(section_text(base, r) == heading + paragraph(r.description) + first + second + ending);
    if r.description.len() == 0 {
        assert(heading + Seq::empty() + first + second + ending =~= heading + (first + second)
            + ending);
    } else {
        assert(heading + (r.description + "\n\n"@) + first + second + ending =~= heading
            + r.description + "\n\n"@ + (first + second) + ending);
    }
}

/// The sections of an index follow each other.
pub proof fn sections_follow_each_other(base: Seq<char>, list: Seq<SectionModel>, r: SectionModel)
    ensures
        sections_text(base, Seq::empty(), 0) == Seq::<char>::empty(),
        sections_text(base, list.push(r), list.len() + 1) == sections_text(base, list, list.len())
            + section_text(base, r),
{
    lemma_sections_more(base, list, r, list.len());
}

proof fn lemma_one_break(s: Seq<char>)
    ensures
        one_break(s).len() <= s.len(),
        one_break(s) == s.take(one_break(s).len() as int),
        forall|i: int| one_break(s).len() <= i < s.len() ==> s[i] == '\n',
        !ends(one_break(s), "\n\n"@),
        one_break(s).len() < s.len() ==> one_break(s).len() > 0 && one_break(s).last() == '\n',
    decreases s.len(),
{
    reveal_strlit("\n\n");
    if s.len() > 0 && ends(s, "\n\n"@) {
        let front = s.drop_last();
        lemma_one_break(front);
        assert(s.skip(s.len() - 2)[1] == '\n');
        assert(s.skip(s.len() - 2)[0] == '\n');
        assert(front.take(one_break(front).len() as int) =~= s.take(one_break(front).len() as int));
        assert(one_break(s) == one_break(front));
        assert forall|i: int| one_break(s).len() <= i < s.len() implies s[i] == '\n' by {
            if i < front.len() {
                assert(front[i] == s[i]);
            } else {
                assert(s.skip(s.len() - 2)[1] == s[i]);
            }
        }
    } else {
        assert(s.take(s.len() as int) =~= s);
        assert(!ends(s, "\n\n"@));
    }
}

/// An index is written as its name in a title, its description as a paragraph
/// if it has one, its sections, and the undeclared terms under a heading of
/// their own if there are any; line breaks at the end are one.
pub proof fn an_index_is_written_whole(toc: TocModel)
    ensures
        ({
            let description = if toc.description.len() == 0 {
                Seq::empty()
            } else {
                toc.description + "\n\n"@
            };
            let apart = if toc.unringed.len() == 0 {
                Seq::empty()
            } else {
                "## Unringed\n\nTerms in `src/` that no ring in `existence.toml` declares.\n\n"@
                    + bullets(toc.unringed, toc.unringed.len()) + "\n"@
            };
            let full = "# "@ + toc.name + "\n\n"@ + description + sections_text(
                toc.base,
                toc.rings,
                toc.rings.len(),
            ) + apart;
            let n = markdown_of(toc).len();
            &&& n <= full.len()
            &&& markdown_of(toc) == full.take(n as int)
            &&& forall|i: int| n <= i < full.len() ==> full[i] == '\n'
            &&& n < full.len() ==> n > 0 && markdown_of(toc).last() == '\n'
            &&& !ends(markdown_of(toc), "\n\n"@)
        }),
{
    let full = "# "@ + toc.name + "\n\n"@ + paragraph(toc.description) + sections_text(
        toc.base,
        toc.rings,
        toc.rings.len(),
    ) + unringed_text(toc.unringed);
    lemma_one_break(full);
}

/// Links are put under `src` unless both the place of the index and that of
/// the nodes are known; then they are put under the path between the two.
pub proof fn links_are_put_under_the_nodes(from: Seq<char>, to: Seq<char>)
    ensures
        base_by_default(None, None) == "src"@,
        base_by_default(Some(from), None) == "src"@,
        base_by_default(None, Some(to)) == "src"@,
        base_by_default(Some(from), Some(to)) == path_between(from, to),
{
}

/// The command fails for a ring that there is not; else a check hands out
/// what it found, whatever the format, and no check hands out the index.
pub proof fn a_check_takes_any_format(
    config: ConfigModel,
    all: Seq<FileModel>,
    ring: Option<u32>,
    format: Seq<char>,
    base: Seq<char>,
)
    ensures
        match toc_of(config, all, ring, base) {
            Err(e) => toc_output(config, all, ring, format, base, true) == Err::<
                OutputModel,
                Seq<char>,
            >(e) && toc_output(config, all, ring, format, base, false) == Err::<
                OutputModel,
                Seq<char>,
            >(e),
            Ok(toc) => toc_output(config, all, ring, format, base, true) == Ok::<
                OutputModel,
                Seq<char>,
            >(checked(toc)) && toc_output(config, all, ring, format, base, false) == formatted(
                toc,
                format,
            ),
        },
{
}

}
