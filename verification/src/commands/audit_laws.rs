//! What an audit finds, counts and tells.

use vstd::prelude::*;

use crate::commands::audit::{
    all_suffix_findings, audit_report, classes_to_run, duplicate_finding, duplicate_findings,
    duplicate_nodes, duplicates_of, double_scale, finding_line, finding_lines, fixable_total, fixed_total, in_both, in_either,
    lower_text, nearest_even, report_text, ReportModel,
    lint_findings, long_ones, message_findings, nodes_after, pieces, repeats, report_of,
    root_index, run_length, severity_total, shared_words, simple_nodes, stem_forms, stems_of,
    structure_findings, suffix_findings, suffix_stems, suffixed, suffixes, toc_findings,
    two_places, hundredths, vocabulary, Classes, FindingModel,
};
use crate::commands::lint::{lint_results, ResultModel};
use crate::commands::source_check::quotes::letter_or_digit;
use crate::commands::toc::toc_problems;
use crate::commands::toc_laws::lemma_three_parts;
use crate::commands::waivers::{
    accepts, first_waiver, in_use, lemma_first_waiver, stale_waiver, stale_waivers, waived,
};
use crate::config::{ConfigModel, WaiverModel};
use crate::markdown::{definition, plain, terms_of, FileModel};
use crate::number::{decimal, decimal_value, digit_char, lemma_decimal_value};
use crate::order::{lemma_contains_last, lemma_sorted_set};
use crate::pattern::{group, regex_matches, rewrite, Hit};
use crate::text::{ends, first_of, has, join, lemma_first_of, starts, strip_suffixes, utf8_length};

verus! {

// ---------------------------------------------------------------------------
// Links without a suffix
// ---------------------------------------------------------------------------

/// The links of a text that lack the suffix.
pub open spec fn bare_links(content: Seq<char>) -> Seq<Hit> {
    regex_matches(
        r#"\[([^\]]*)\]\(\./([A-Za-z0-9_-]+)((?:#[^)\s"]*)?(?:\s+"[^"]*")?)\)"#@,
        content,
    ).0
}

/// The first of a list of links to its target.
pub open spec fn first_to_target(found: Seq<Hit>, i: int) -> bool {
    &&& 0 <= i < found.len()
    &&& forall|j: int| 0 <= j < i ==> group(#[trigger] found[j], 2) != group(found[i], 2)
}

/// An error about a link of a node that lacks the suffix: with a resolution
/// where the target exists, else saying that it does not.
pub open spec fn bare_link_error(
    term: Seq<char>,
    h: Hit,
    existing: Seq<Seq<char>>,
    fix: bool,
) -> FindingModel {
    let target = group(h, 2);
    let link = "link ["@ + group(h, 1) + "](./"@ + target + ") is missing the .md suffix"@;
    FindingModel {
        class: "structure"@,
        check: "link_suffix"@,
        severity: "error"@,
        term,
        message: if existing.contains(target) {
            link
        } else {
            link + " and src/"@ + target + ".md does not exist"@
        },
        fix: if existing.contains(target) {
            Some("rewrite (./"@ + target + ") to (./"@ + target + ".md)"@)
        } else {
            None
        },
        fixed: fix && existing.contains(target),
    }
}

proof fn lemma_bare_links(
    term: Seq<char>,
    found: Seq<Hit>,
    existing: Seq<Seq<char>>,
    fix: bool,
    f: FindingModel,
)
    ensures
        suffix_findings(term, found, existing, fix).contains(f) <==> exists|i: int| #[trigger]
            first_to_target(found, i) && f == bare_link_error(term, found[i], existing, fix),
    decreases found.len(),
{
    if found.len() > 0 {
        let front = found.drop_last();
        let n = found.len() - 1;
        lemma_bare_links(term, front, existing, fix, f);
        let list = suffix_findings(term, found, existing, fix);
        assert forall|i: int| 0 <= i < n implies first_to_target(front, i) == #[trigger]
            first_to_target(found, i) by {
            if first_to_target(front, i) {
                assert forall|j: int| 0 <= j < i implies group(#[trigger] found[j], 2) != group(
                    found[i],
                    2,
                ) by {
                    assert(front[j] == found[j]);
                }
            }
            if first_to_target(found, i) {
                assert forall|j: int| 0 <= j < i implies group(#[trigger] front[j], 2) != group(
                    front[i],
                    2,
                ) by {
                    assert(front[j] == found[j]);
                }
            }
        }
        if exists|i: int| #[trigger]
            first_to_target(front, i) && f == bare_link_error(term, front[i], existing, fix) {
            let i = choose|i: int| #[trigger]
                first_to_target(front, i) && f == bare_link_error(term, front[i], existing, fix);
            assert(first_to_target(found, i));
        }
        if repeats(found) {
            let j = choose|j: int|
                0 <= j < found.len() - 1 && group(#[trigger] found[j], 2) == group(found.last(), 2);
            assert(!first_to_target(found, n));
        } else {
            lemma_contains_last(list, f);
            assert(list.drop_last() =~= suffix_findings(term, front, existing, fix));
            assert(first_to_target(found, n));
        }
        if exists|i: int| #[trigger]
            first_to_target(found, i) && f == bare_link_error(term, found[i], existing, fix) {
            let i = choose|i: int| #[trigger]
                first_to_target(found, i) && f == bare_link_error(term, found[i], existing, fix);
            if i < n {
                assert(first_to_target(front, i));
                assert(front[i] == found[i]);
            }
        }
    }
}

/// The node at a place has a link that lacks the suffix, and this is the
/// error about it.
pub open spec fn bare_link_at(
    all: Seq<FileModel>,
    fix: bool,
    f: FindingModel,
    k: int,
    i: int,
) -> bool {
    &&& 0 <= k < all.len()
    &&& first_to_target(bare_links(all[k].content), i)
    &&& f == bare_link_error(all[k].term, bare_links(all[k].content)[i], terms_of(all), fix)
}

proof fn lemma_all_bare_links(all: Seq<FileModel>, fix: bool, n: nat, f: FindingModel)
    requires
        n <= all.len(),
    ensures
        all_suffix_findings(all, terms_of(all), fix, n).contains(f) <==> exists|k: int, i: int|
            #[trigger] bare_link_at(all, fix, f, k, i) && k < n,
    decreases n,
{
    if n > 0 {
        let m = (n - 1) as nat;
        lemma_all_bare_links(all, fix, m, f);
        let found = bare_links(all[n - 1].content);
        let front = all_suffix_findings(all, terms_of(all), fix, m);
        let more = suffix_findings(all[n - 1].term, found, terms_of(all), fix);
        lemma_bare_links(all[n - 1].term, found, terms_of(all), fix, f);
        let none = Seq::<FindingModel>::empty();
        lemma_three_parts(front, more, none, f);
        assert(front + more + none =~= front + more);
        if more.contains(f) {
            let i = choose|i: int| #[trigger]
                first_to_target(found, i) && f == bare_link_error(
                    all[n - 1].term,
                    found[i],
                    terms_of(all),
                    fix,
                );
            assert(bare_link_at(all, fix, f, n - 1, i));
        }
    }
}

/// A fix appends the suffix to each link that lacks it and whose target
/// exists, keeps its text, its anchor and its title, and leaves any other link
/// as it is.
pub proof fn a_fix_appends_the_suffix(content: Seq<char>, existing: Seq<Seq<char>>)
    ensures
        ({
            let m = regex_matches(
                r#"\[([^\]]*)\]\(\./([A-Za-z0-9_-]+)((?:#[^)\s"]*)?(?:\s+"[^"]*")?)\)"#@,
                content,
            );
            suffixed(content, existing) == rewrite(
                m.0,
                m.1,
                |h: Hit|
                    if existing.contains(group(h, 2)) {
                        "["@ + group(h, 1) + "](./"@ + group(h, 2) + ".md"@ + group(h, 3) + ")"@
                    } else {
                        group(h, 0)
                    },
            )
        }),
{
    let r = |h: Hit|
        if existing.contains(group(h, 2)) {
            "["@ + group(h, 1) + "](./"@ + group(h, 2) + ".md"@ + group(h, 3) + ")"@
        } else {
            group(h, 0)
        };
    assert(crate::commands::audit::with_suffix(existing) =~= r);
}

// ---------------------------------------------------------------------------
// Near duplicates
// ---------------------------------------------------------------------------

/// A suffix that does not part two terms.
pub open spec fn is_suffix(s: Seq<char>) -> bool {
    ||| s == "ition"@
    ||| s == "ation"@
    ||| s == "ment"@
    ||| s == "ence"@
    ||| s == "ance"@
    ||| s == "tion"@
    ||| s == "ion"@
    ||| s == "ity"@
    ||| s == "ing"@
    ||| s == "es"@
    ||| s == "ed"@
    ||| s == "s"@
    ||| s == "e"@
}

/// A form of a base: the base, or the base without an `e` at its end; of four
/// characters or more.
pub open spec fn form_of(base: Seq<char>, s: Seq<char>) -> bool {
    &&& s.len() >= 4
    &&& base.len() >= 4
    &&& s == base || base == s.push('e')
}

proof fn lemma_forms(base: Seq<char>, s: Seq<char>)
    ensures
        stem_forms(base).contains(s) <==> form_of(base, s),
{
    reveal_strlit("e");
    let list = stem_forms(base);
    if base.len() >= 4 {
        assert(list[0] == base);
        if ends(base, "e"@) && base.len() > 4 {
            assert(base.skip(base.len() - 1)[0] == base.last());
            assert(list[1] == base.drop_last());
            assert(base =~= base.drop_last().push('e'));
        }
        if base == s.push('e') {
            assert(base.skip(base.len() - 1) =~= "e"@);
            assert(base.drop_last() =~= s);
        }
        if list.contains(s) {
            let i = choose|i: int| 0 <= i < list.len() && list[i] == s;
            assert(i == 0 || i == 1);
        }
    }
}

proof fn lemma_suffixes(s: Seq<char>)
    ensures
        is_suffix(s) <==> exists|i: int| 0 <= i < 13 && #[trigger] suffixes()[i] == s,
{
    let list = suffixes();
    assert(list[0] == "ition"@ && list[1] == "ation"@ && list[2] == "ment"@ && list[3] == "ence"@
        && list[4] == "ance"@ && list[5] == "tion"@ && list[6] == "ion"@ && list[7] == "ity"@
        && list[8] == "ing"@ && list[9] == "es"@ && list[10] == "ed"@ && list[11] == "s"@
        && list[12] == "e"@);
    if exists|i: int| 0 <= i < 13 && #[trigger] suffixes()[i] == s {
        let i = choose|i: int| 0 <= i < 13 && #[trigger] suffixes()[i] == s;
        assert(0 <= i < 13);
    }
}

/// A base of a slug and one of the first `n` suffixes make up the slug.
spec fn parts_at(slug: Seq<char>, base: Seq<char>, i: int) -> bool {
    0 <= i < 13 && slug == base + suffixes()[i]
}

proof fn lemma_stems_upto(slug: Seq<char>, n: nat, s: Seq<char>)
    requires
        n <= 13,
    ensures
        suffix_stems(slug, n).contains(s) <==> form_of(slug, s) || exists|base: Seq<char>, i: int|
            #[trigger] parts_at(slug, base, i) && i < n && form_of(base, s),
    decreases n,
{
    if n == 0 {
        lemma_forms(slug, s);
    } else {
        let m = (n - 1) as nat;
        lemma_stems_upto(slug, m, s);
        let suffix = suffixes()[n - 1];
        let front = suffix_stems(slug, m);
        let base = slug.take(slug.len() - suffix.len());
        let more = if ends(slug, suffix) {
            stem_forms(base)
        } else {
            Seq::empty()
        };
        let none = Seq::<Seq<char>>::empty();
        lemma_three_parts(front, more, none, s);
        assert(front + more + none =~= front + more);
        if ends(slug, suffix) {
            lemma_forms(base, s);
            assert(slug =~= base + suffix);
            assert(parts_at(slug, base, n - 1));
        }
        if exists|b: Seq<char>, i: int| #[trigger]
            parts_at(slug, b, i) && i < n && form_of(b, s) {
            let (b, i) = choose|b: Seq<char>, i: int| #[trigger]
                parts_at(slug, b, i) && i < n && form_of(b, s);
            if i == n - 1 {
                assert(slug.skip(slug.len() - suffix.len()) =~= suffix);
                assert(b =~= base);
            }
        }
    }
}

/// A slug without one suffix.
pub open spec fn without_suffix(slug: Seq<char>, base: Seq<char>, suffix: Seq<char>) -> bool {
    is_suffix(suffix) && slug == base + suffix
}

/// The candidate stems of a slug are the forms of the slug and of the slug
/// without any one suffix.
pub proof fn stems_lack_one_suffix(slug: Seq<char>, s: Seq<char>)
    ensures
        stems_of(slug).contains(s) <==> form_of(slug, s) || exists|
            base: Seq<char>,
            suffix: Seq<char>,
        | #[trigger] without_suffix(slug, base, suffix) && form_of(base, s),
{
    lemma_sorted_set(suffix_stems(slug, 13));
    lemma_stems_upto(slug, 13, s);
    if exists|base: Seq<char>, i: int| #[trigger]
        parts_at(slug, base, i) && i < 13 && form_of(base, s) {
        let (base, i) = choose|base: Seq<char>, i: int| #[trigger]
            parts_at(slug, base, i) && i < 13 && form_of(base, s);
        lemma_suffixes(suffixes()[i]);
        assert(without_suffix(slug, base, suffixes()[i]));
    }
    if exists|base: Seq<char>, suffix: Seq<char>| #[trigger]
        without_suffix(slug, base, suffix) && form_of(base, s) {
        let (base, suffix) = choose|base: Seq<char>, suffix: Seq<char>| #[trigger]
            without_suffix(slug, base, suffix) && form_of(base, s);
        lemma_suffixes(suffix);
        let i = choose|i: int| 0 <= i < 13 && #[trigger] suffixes()[i] == suffix;
        assert(parts_at(slug, base, i));
    }
}

proof fn lemma_run(s: Seq<char>)
    ensures
        run_length(s) <= s.len(),
        forall|i: int| 0 <= i < run_length(s) ==> letter_or_digit(#[trigger] s[i]),
        run_length(s) < s.len() ==> !letter_or_digit(s[run_length(s) as int]),
    decreases s.len(),
{
    if s.len() > 0 && letter_or_digit(s[0]) {
        let rest = s.skip(1);
        lemma_run(rest);
        assert forall|i: int| 0 <= i < run_length(s) implies letter_or_digit(#[trigger] s[i]) by {
            if i > 0 {
                assert(s[i] == rest[i - 1]);
            }
        }
    }
}

/// A word of a text: letters and digits from one place to another, and none
/// right before or right behind them.
pub open spec fn word_at(s: Seq<char>, i: int, j: int) -> bool {
    &&& 0 <= i <= j <= s.len()
    &&& forall|k: int| i <= k < j ==> letter_or_digit(#[trigger] s[k])
    &&& i > 0 ==> !letter_or_digit(s[i - 1])
    &&& j < s.len() ==> !letter_or_digit(s[j])
}

proof fn lemma_pieces(s: Seq<char>, w: Seq<char>)
    requires
        w.len() > 0,
    ensures
        pieces(s).contains(w) <==> exists|i: int, j: int| #[trigger] word_at(s, i, j) && w
            == s.subrange(i, j),
    decreases s.len(),
{
    lemma_run(s);
    let n = run_length(s) as int;
    if n >= s.len() {
        assert(s.subrange(0, n) =~= s);
        assert(word_at(s, 0, n));
        assert(pieces(s)[0] == s);
        if exists|i: int, j: int| #[trigger] word_at(s, i, j) && w == s.subrange(i, j) {
            let (i, j) = choose|i: int, j: int| #[trigger] word_at(s, i, j) && w == s.subrange(i, j);
            if i > 0 {
                assert(letter_or_digit(s[i - 1]));
            }
            if j < s.len() {
                assert(letter_or_digit(s[j]));
            }
        }
    } else {
        let rest = s.skip(n + 1);
        lemma_pieces(rest, w);
        let first = s.take(n);
        let all = pieces(s);
        assert(all == seq![first] + pieces(rest));
        assert(first =~= s.subrange(0, n));
        assert(word_at(s, 0, n));
        if all.contains(w) {
            let k = choose|k: int| 0 <= k < all.len() && all[k] == w;
            if k > 0 {
                assert(pieces(rest)[k - 1] == w);
                let (i, j) = choose|i: int, j: int| #[trigger]
                    word_at(rest, i, j) && w == rest.subrange(i, j);
                let a = i + n + 1;
                let b = j + n + 1;
                assert forall|m: int| a <= m < b implies letter_or_digit(#[trigger] s[m]) by {
                    assert(s[m] == rest[m - n - 1]);
                }
                if i > 0 {
                    assert(s[a - 1] == rest[i - 1]);
                }
                assert(word_at(s, a, b));
                assert(s.subrange(a, b) =~= rest.subrange(i, j));
            }
        }
        if exists|i: int, j: int| #[trigger] word_at(s, i, j) && w == s.subrange(i, j) {
            let (i, j) = choose|i: int, j: int| #[trigger] word_at(s, i, j) && w == s.subrange(i, j);
            assert(j > i);
            if i <= n {
                assert(letter_or_digit(s[i]));
                assert(i < n);
                if i > 0 {
                    assert(letter_or_digit(s[i - 1]));
                }
                if j > n {
                    assert(letter_or_digit(s[n]));
                }
                if j < n {
                    assert(letter_or_digit(s[j]));
                }
                assert(all[0] == w);
            } else {
                let a = i - n - 1;
                let b = j - n - 1;
                assert forall|m: int| a <= m < b implies letter_or_digit(#[trigger] rest[m]) by {
                    assert(rest[m] == s[m + n + 1]);
                }
                if a > 0 {
                    assert(rest[a - 1] == s[i - 1]);
                }
                if b < rest.len() {
                    assert(rest[b] == s[j]);
                }
                assert(word_at(rest, a, b));
                assert(rest.subrange(a, b) =~= w);
                let k = choose|k: int| 0 <= k < pieces(rest).len() && pieces(rest)[k] == w;
                assert(all[k + 1] == w);
            }
        }
    }
}

proof fn lemma_long_ones(list: Seq<Seq<char>>, w: Seq<char>)
    ensures
        long_ones(list).contains(w) <==> list.contains(w) && utf8_length(w) >= 3,
    decreases list.len(),
{
    if list.len() > 0 {
        let rest = list.skip(1);
        lemma_long_ones(rest, w);
        let first = if utf8_length(list[0]) >= 3 {
            seq![list[0]]
        } else {
            Seq::empty()
        };
        let none = Seq::<Seq<char>>::empty();
        lemma_three_parts(first, long_ones(rest), none, w);
        assert(first + long_ones(rest) + none =~= first + long_ones(rest));
        if list.contains(w) {
            let i = choose|i: int| 0 <= i < list.len() && list[i] == w;
            if i > 0 {
                assert(rest[i - 1] == w);
            } else if utf8_length(w) >= 3 {
                assert(first[0] == w);
            }
        }
        if rest.contains(w) {
            let i = choose|i: int| 0 <= i < rest.len() && rest[i] == w;
            assert(list[i + 1] == w);
        }
        if first.contains(w) {
            assert(list[0] == w);
        }
    }
}

/// The words of a text are its runs of letters and digits that take three
/// bytes or more.
pub proof fn words_are_runs_of_letters(s: Seq<char>, w: Seq<char>)
    ensures
        vocabulary(s).contains(w) <==> utf8_length(w) >= 3 && exists|i: int, j: int| #[trigger]
            word_at(s, i, j) && w == s.subrange(i, j),
{
    lemma_sorted_set(long_ones(pieces(s)));
    lemma_long_ones(pieces(s), w);
    if utf8_length(w) >= 3 {
        assert(w.len() > 0);
        lemma_pieces(s, w);
    }
}

proof fn lemma_shared(a: Seq<Seq<char>>, b: Seq<Seq<char>>, n: nat)
    requires
        n <= a.len(),
    ensures
        shared_words(a, b, n) == a.take(n as int).filter(|w: Seq<char>| b.contains(w)).len(),
        n - shared_words(a, b, n) == a.take(n as int).filter(|w: Seq<char>| !b.contains(w)).len(),
    decreases n,
{
    reveal(Seq::filter);
    if n > 0 {
        lemma_shared(a, b, (n - 1) as nat);
        assert(a.take(n as int).drop_last() =~= a.take(n - 1));
        assert(a.take(n as int).last() == a[n - 1]);
    }
}

/// The words in both of two vocabularies are those of the one that the other
/// has; those in either are the words of the one and those of the other that
/// the one lacks.
pub proof fn overlap_counts_words(a: Seq<Seq<char>>, b: Seq<Seq<char>>)
    ensures
        in_both(a, b) == a.filter(|w: Seq<char>| b.contains(w)).len(),
        in_either(a, b) == a.len() + b.filter(|w: Seq<char>| !a.contains(w)).len(),
{
    lemma_shared(a, b, a.len());
    lemma_shared(b, a, b.len());
    assert(a.take(a.len() as int) =~= a);
    assert(b.take(b.len() as int) =~= b);
}

/// Two different slugs with a stem in common are near-duplicates when their
/// definitions share at least a quarter of the words of both; the warning is
/// about the first, names both and gives the share.
pub proof fn near_duplicates_share_a_quarter(
    a: Seq<char>,
    b: Seq<char>,
    x: Seq<Seq<char>>,
    y: Seq<Seq<char>>,
)
    ensures
        ({
            let both = x.filter(|w: Seq<char>| y.contains(w)).len() as int;
            let either = x.len() + y.filter(|w: Seq<char>| !x.contains(w)).len() as int;
            let alike = exists|s: Seq<char>| #[trigger]
                stems_of(a).contains(s) && stems_of(b).contains(s);
            if a != b && alike && either > 0 && both * 4 >= either {
                duplicate_finding(a, b, x, y) == Some(
                    FindingModel {
                        class: "structure"@,
                        check: "near_duplicate"@,
                        severity: "warning"@,
                        term: a,
                        message: "`"@ + a + "` and `"@ + b
                            + "` look like the same term (definition similarity "@ + two_places(
                            hundredths(both, either),
                        ) + ")"@,
                        fix: None,
                        fixed: false,
                    },
                )
            } else {
                duplicate_finding(a, b, x, y) is None
            }
        }),
{
    overlap_counts_words(x, y);
}

/// The nodes that are compared are those whose slug has no hyphen.
pub proof fn compounds_are_not_compared(all: Seq<FileModel>, f: FileModel)
    ensures
        simple_nodes(all).contains(f) <==> all.contains(f) && forall|i: int|
            0 <= i < f.term.len() ==> #[trigger] f.term[i] != '-',
    decreases all.len(),
{
    if all.len() > 0 {
        let front = all.drop_last();
        let last = all.last();
        compounds_are_not_compared(front, f);
        lemma_contains_last(all, f);
        reveal_strlit("-");
        lemma_first_of(last.term, "-"@);
        if has(last.term, "-"@) {
            let i = first_of(last.term, "-"@)->Some_0;
            assert(last.term.skip(i).take(1)[0] == last.term[i]);
            assert(last.term[i] == '-');
        } else {
            assert forall|i: int| 0 <= i < last.term.len() implies #[trigger] last.term[i] != '-' by {
                if last.term[i] == '-' {
                    assert(last.term.skip(i).take(1) =~= "-"@);
                    assert(starts(last.term.skip(i), "-"@));
                }
            }
            let list = simple_nodes(all);
            lemma_contains_last(list, f);
            assert(list.drop_last() =~= simple_nodes(front));
        }
    }
}

/// Two nodes of a list make this finding.
pub open spec fn pair_at(list: Seq<FileModel>, f: FindingModel, i: int, j: int) -> bool {
    0 <= i < j < list.len() && duplicate_nodes(list[i], list[j]) == Some(f)
}

proof fn lemma_duplicates_of(list: Seq<FileModel>, i: int, n: int, f: FindingModel)
    requires
        0 <= i < list.len(),
        n <= list.len(),
    ensures
        duplicates_of(list, i, n).contains(f) <==> exists|j: int| #[trigger]
            pair_at(list, f, i, j) && j < n,
    decreases n - i,
{
    if n > i + 1 {
        lemma_duplicates_of(list, i, n - 1, f);
        let now = duplicates_of(list, i, n);
        if duplicate_nodes(list[i], list[n - 1]) is Some {
            lemma_contains_last(now, f);
            assert(now.drop_last() =~= duplicates_of(list, i, n - 1));
        }
        if duplicate_nodes(list[i], list[n - 1]) == Some(f) {
            assert(pair_at(list, f, i, n - 1));
        }
    }
}

proof fn lemma_duplicates(list: Seq<FileModel>, n: nat, f: FindingModel)
    requires
        n <= list.len(),
    ensures
        duplicate_findings(list, n).contains(f) <==> exists|i: int, j: int| #[trigger]
            pair_at(list, f, i, j) && i < n,
    decreases n,
{
    if n > 0 {
        let m = (n - 1) as nat;
        lemma_duplicates(list, m, f);
        lemma_duplicates_of(list, n - 1, list.len() as int, f);
        let front = duplicate_findings(list, m);
        let more = duplicates_of(list, n - 1, list.len() as int);
        let none = Seq::<FindingModel>::empty();
        lemma_three_parts(front, more, none, f);
        assert(front + more + none =~= front + more);
    }
}

// ---------------------------------------------------------------------------
// The structure class
// ---------------------------------------------------------------------------

/// A finding of the structure class without a resolution.
pub open spec fn plain_finding(
    check: Seq<char>,
    severity: Seq<char>,
    term: Seq<char>,
    message: Seq<char>,
) -> FindingModel {
    FindingModel {
        class: "structure"@,
        check,
        severity,
        term,
        message,
        fix: None,
        fixed: false,
    }
}

/// A lint result makes this finding: each of its errors an error, each of its
/// warnings a warning, about the file without its ending.
pub open spec fn from_lint(r: ResultModel, f: FindingModel) -> bool {
    let term = strip_suffixes(r.file, ".md"@);
    ||| r.errors.contains(f.message) && f == plain_finding("lint"@, "error"@, term, f.message)
    ||| r.warnings.contains(f.message) && f == plain_finding(
        "lint"@,
        "warning"@,
        term,
        f.message,
    )
}

proof fn lemma_messages(
    check: Seq<char>,
    severity: Seq<char>,
    term: Seq<char>,
    messages: Seq<Seq<char>>,
    f: FindingModel,
)
    ensures
        message_findings(check, severity, term, messages).contains(f) <==> messages.contains(
            f.message,
        ) && f == plain_finding(check, severity, term, f.message),
{
    let list = message_findings(check, severity, term, messages);
    if list.contains(f) {
        let i = choose|i: int| 0 <= i < list.len() && list[i] == f;
        assert(messages[i] == f.message);
    }
    if messages.contains(f.message) {
        let i = choose|i: int| 0 <= i < messages.len() && messages[i] == f.message;
        assert(list[i] == plain_finding(check, severity, term, f.message));
    }
}

proof fn lemma_lint(list: Seq<ResultModel>, n: nat, f: FindingModel)
    requires
        n <= list.len(),
    ensures
        lint_findings(list, n).contains(f) <==> exists|i: int|
            0 <= i < n && from_lint(#[trigger] list[i], f),
    decreases n,
{
    if n > 0 {
        let m = (n - 1) as nat;
        lemma_lint(list, m, f);
        let one = list[n - 1];
        let term = strip_suffixes(one.file, ".md"@);
        lemma_messages("lint"@, "error"@, term, one.errors, f);
        lemma_messages("lint"@, "warning"@, term, one.warnings, f);
        lemma_three_parts(
            lint_findings(list, m),
            message_findings("lint"@, "error"@, term, one.errors),
            message_findings("lint"@, "warning"@, term, one.warnings),
            f,
        );
    }
}

proof fn lemma_toc(list: Seq<(Seq<char>, Seq<char>)>, f: FindingModel)
    ensures
        toc_findings(list).contains(f) <==> list.contains((f.term, f.message)) && f
            == plain_finding("toc"@, "error"@, f.term, f.message),
{
    let all = toc_findings(list);
    if all.contains(f) {
        let i = choose|i: int| 0 <= i < all.len() && all[i] == f;
        assert(list[i] == (f.term, f.message));
    }
    if list.contains((f.term, f.message)) {
        let i = choose|i: int| 0 <= i < list.len() && list[i] == (f.term, f.message);
        assert(all[i] == plain_finding("toc"@, "error"@, f.term, f.message));
    }
}

/// The structure class finds just this: the links that lack their suffix, as
/// the nodes were; and, in the nodes as the run leaves them, what lint says,
/// the problems of the index of the whole ontology, and the near-duplicates.
pub proof fn the_structure_class_finds_just_this(
    config: ConfigModel,
    all: Seq<FileModel>,
    fix: bool,
    f: FindingModel,
)
    ensures
        ({
            let after = nodes_after(all, fix);
            structure_findings(config, all, fix).contains(f) <==> {
                ||| exists|k: int, i: int| #[trigger] bare_link_at(all, fix, f, k, i)
                ||| exists|i: int|
                    0 <= i < lint_results(after).len() && from_lint(
                        #[trigger] lint_results(after)[i],
                        f,
                    )
                ||| toc_problems(root_index(config, after)).contains((f.term, f.message)) && f
                    == plain_finding("toc"@, "error"@, f.term, f.message)
                ||| exists|i: int, j: int| #[trigger] pair_at(simple_nodes(after), f, i, j)
            }
        }),
{
    let after = nodes_after(all, fix);
    let results = lint_results(after);
    let simple = simple_nodes(after);
    let a = all_suffix_findings(all, terms_of(all), fix, all.len());
    let b = lint_findings(results, results.len());
    let c = toc_findings(toc_problems(root_index(config, after)));
    let d = duplicate_findings(simple, simple.len());
    let none = Seq::<FindingModel>::empty();
    lemma_all_bare_links(all, fix, all.len(), f);
    lemma_lint(results, results.len(), f);
    lemma_toc(toc_problems(root_index(config, after)), f);
    lemma_duplicates(simple, simple.len(), f);
    lemma_three_parts(a, b, c, f);
    lemma_three_parts(a + b + c, d, none, f);
    assert(a + b + c + d + none =~= a + b + c + d);
    if exists|k: int, i: int| #[trigger] bare_link_at(all, fix, f, k, i) {
        let (k, i) = choose|k: int, i: int| #[trigger] bare_link_at(all, fix, f, k, i);
        assert(bare_link_at(all, fix, f, k, i) && k < all.len());
    }
    if exists|i: int, j: int| #[trigger] pair_at(simple, f, i, j) {
        let (i, j) = choose|i: int, j: int| #[trigger] pair_at(simple, f, i, j);
        assert(pair_at(simple, f, i, j) && i < simple.len());
    }
}

/// With fixes a run leaves each node with its links fixed and its term kept;
/// without, it leaves the nodes as they were.
pub proof fn a_run_leaves_the_nodes_fixed(all: Seq<FileModel>)
    ensures
        nodes_after(all, false) == all,
        nodes_after(all, true).len() == all.len(),
        forall|i: int|
            0 <= i < all.len() ==> (#[trigger] nodes_after(all, true)[i]).term == all[i].term
                && nodes_after(all, true)[i].content == suffixed(all[i].content, terms_of(all)),
{
}

// ---------------------------------------------------------------------------
// The report
// ---------------------------------------------------------------------------

proof fn lemma_severity_count(list: Seq<FindingModel>, severity: Seq<char>, n: nat)
    requires
        n <= list.len(),
    ensures
        severity_total(list, severity, n) == list.take(n as int).filter(
            |f: FindingModel| f.severity == severity,
        ).len(),
    decreases n,
{
    reveal(Seq::filter);
    if n > 0 {
        lemma_severity_count(list, severity, (n - 1) as nat);
        assert(list.take(n as int).drop_last() =~= list.take(n - 1));
        assert(list.take(n as int).last() == list[n - 1]);
    }
}

proof fn lemma_fix_counts(list: Seq<FindingModel>, n: nat)
    requires
        n <= list.len(),
    ensures
        fixable_total(list, n) == list.take(n as int).filter(
            |f: FindingModel| f.fix is Some,
        ).len(),
        fixed_total(list, n) == list.take(n as int).filter(|f: FindingModel| f.fixed).len(),
    decreases n,
{
    reveal(Seq::filter);
    if n > 0 {
        lemma_fix_counts(list, (n - 1) as nat);
        assert(list.take(n as int).drop_last() =~= list.take(n - 1));
        assert(list.take(n as int).last() == list[n - 1]);
    }
}

/// A report keeps its findings and counts the errors, the warnings, those
/// with a resolution and those resolved; it is clean without errors.
pub proof fn a_report_counts_its_findings(
    ontology: Seq<char>,
    classes: Seq<Seq<char>>,
    findings: Seq<FindingModel>,
)
    ensures
        ({
            let r = report_of(ontology, classes, findings);
            &&& r.ontology == ontology
            &&& r.classes == classes
            &&& r.findings == findings
            &&& r.errors == findings.filter(|f: FindingModel| f.severity == "error"@).len()
            &&& r.warnings == findings.filter(|f: FindingModel| f.severity == "warning"@).len()
            &&& r.fixable == findings.filter(|f: FindingModel| f.fix is Some).len()
            &&& r.fixed == findings.filter(|f: FindingModel| f.fixed).len()
            &&& r.clean <==> r.errors == 0
        }),
{
    lemma_severity_count(findings, "error"@, findings.len());
    lemma_severity_count(findings, "warning"@, findings.len());
    lemma_fix_counts(findings, findings.len());
    assert(findings.take(findings.len() as int) =~= findings);
}

/// The report on an ontology is named after it, and runs the structure class
/// where no class is asked for.
pub proof fn a_report_is_on_the_ontology(
    config: ConfigModel,
    all: Seq<FileModel>,
    classes: Classes,
    fix: bool,
)
    ensures
        audit_report(config, all, classes, fix).ontology == config.meta.name,
        classes.structure ==> audit_report(config, all, classes, fix).classes
            == seq!["structure"@] && audit_report(config, all, classes, fix).findings
            == structure_findings(config, all, fix),
        !classes.structure ==> audit_report(config, all, classes, fix).classes.len() == 0
            && audit_report(config, all, classes, fix).findings.len() == 0,
        classes_to_run(classes).structure,
{
}

/// The line of a finding: its term, its check, a mark for a warning, its
/// message, and whether it was resolved or can be.
pub proof fn a_line_tells_a_finding(f: FindingModel)
    ensures
        ({
            let mark = if f.severity == "warning"@ {
                "warn: "@
            } else {
                Seq::empty()
            };
            let behind = if f.fixed {
                " (fixed)"@
            } else if f.fix is Some {
                " (fixable)"@
            } else {
                Seq::empty()
            };
            finding_line(f) == f.term + ": ["@ + f.check + "] "@ + mark + f.message + behind + "\n"@
        }),
{
    reveal_strlit("");
    assert(""@ =~= Seq::<char>::empty());
}

proof fn lemma_lines_more(list: Seq<FindingModel>, f: FindingModel, n: nat)
    requires
        n <= list.len(),
    ensures
        finding_lines(list.push(f), n) == finding_lines(list, n),
    decreases n,
{
    if n > 0 {
        lemma_lines_more(list, f, (n - 1) as nat);
    }
}

/// A report reads as a line for each finding and a last line with the classes
/// that ran, the totals and whether it is clean.
pub proof fn a_report_ends_with_its_totals(r: ReportModel, list: Seq<FindingModel>, f: FindingModel)
    ensures
        finding_lines(Seq::empty(), 0) == Seq::<char>::empty(),
        finding_lines(list.push(f), list.len() + 1) == finding_lines(list, list.len())
            + finding_line(f),
        ({
            let lines = finding_lines(r.findings, r.findings.len()) + "audit ("@ + join(
                r.classes,
                ","@,
            ) + "): "@ + decimal(r.errors) + " error(s), "@ + decimal(r.warnings)
                + " warning(s), "@ + decimal(r.fixable) + " fixable, "@ + decimal(r.fixed)
                + " fixed — "@;
            &&& r.clean ==> report_text(r) == lines + "clean"@ + "\n"@
            &&& !r.clean ==> report_text(r) == lines + "findings"@ + "\n"@
        }),
{
    lemma_lines_more(list, f, list.len());
}

/// A quotient is rounded to the nearest integer, and to the even one of two
/// that are as near.
pub proof fn rounding_is_to_the_nearest(num: int, den: int)
    requires
        num >= 0,
        den > 0,
    ensures
        2 * (nearest_even(num, den) * den - num) <= den,
        2 * (num - nearest_even(num, den) * den) <= den,
        2 * (nearest_even(num, den) * den - num) == den || 2 * (num - nearest_even(num, den) * den)
            == den ==> nearest_even(num, den) % 2 == 0,
{
    let q = num / den;
    let r = num % den;
    assert(num == q * den + r && 0 <= r < den) by (nonlinear_arith)
        requires
            den > 0,
            q == num / den,
            r == num % den,
    ;
    assert((q + 1) * den == q * den + den) by (nonlinear_arith);
}

/// A number of hundredths reads back from its two places.
pub proof fn two_places_read_back(h: int)
    requires
        h >= 0,
    ensures
        ({
            let s = two_places(h);
            &&& s.len() > 3
            &&& s[s.len() - 3] == '.'
            &&& decimal_value(s.take(s.len() - 3) + s.skip(s.len() - 2)) == h
        }),
{
    let whole = decimal((h / 100) as nat);
    let tens = digit_char(h / 10 % 10);
    let ones = digit_char(h % 10);
    let s = two_places(h);
    reveal_strlit(".");
    lemma_decimal_value((h / 100) as nat);
    assert(whole.len() > 0) by {
        reveal_with_fuel(decimal, 2);
    }
    let digits = whole.push(tens).push(ones);
    assert(s.take(s.len() - 3) + s.skip(s.len() - 2) =~= digits);
    assert(digits.drop_last() =~= whole.push(tens));
    assert(whole.push(tens).drop_last() =~= whole);
    assert(decimal_value(whole.push(tens)) == (h / 100) * 10 + h / 10 % 10);
    assert(decimal_value(digits) == decimal_value(whole.push(tens)) * 10 + h % 10);
    assert(h == ((h / 100) * 10 + h / 10 % 10) * 10 + h % 10);
}

// ---------------------------------------------------------------------------
// Waivers
// ---------------------------------------------------------------------------

/// A waiver is about a finding: the same term and the same check, and, where
/// it names a source, a message that holds it.
pub open spec fn is_about(w: WaiverModel, f: FindingModel) -> bool {
    &&& w.term == f.term
    &&& w.check == f.check
    &&& w.source matches Some(source) ==> has(f.message, source)
}

/// A finding is accepted exactly when some waiver is about it; its message
/// then ends with when and why the first of them was decided, and nothing else
/// of it changes.
pub proof fn a_finding_is_accepted_by_a_waiver_about_it(
    f: FindingModel,
    ws: Seq<WaiverModel>,
)
    ensures
        (forall|i: int| 0 <= i < ws.len() ==> !is_about(#[trigger] ws[i], f)) ==> waived(f, ws)
            == f,
        forall|i: int|
            0 <= i < ws.len() && is_about(#[trigger] ws[i], f) && (forall|j: int|
                0 <= j < i ==> !is_about(#[trigger] ws[j], f)) ==> waived(f, ws) == (
            FindingModel {
                class: f.class,
                check: f.check,
                severity: "accepted"@,
                term: f.term,
                message: f.message + (" — accepted "@ + ws[i].decided_on + ": "@ + ws[i].reason),
                fix: f.fix,
                fixed: f.fixed,
            }),
{
    lemma_first_waiver(ws, f);
    assert forall|i: int| 0 <= i < ws.len() implies is_about(#[trigger] ws[i], f) == accepts(
        ws[i],
        f,
    ) by {}
    assert forall|i: int|
        0 <= i < ws.len() && is_about(#[trigger] ws[i], f) && (forall|j: int|
            0 <= j < i ==> !is_about(#[trigger] ws[j], f)) implies first_waiver(ws, f) == Some(
        i,
    ) by {
        assert(accepts(ws[i], f));
        let k = first_waiver(ws, f)->Some_0;
        if k < i {
            assert(!is_about(ws[k], f));
        }
        if i < k {
            assert(!accepts(ws[i], f));
        }
    }
}

proof fn lemma_stale_from(fs: Seq<FindingModel>, ws: Seq<WaiverModel>, n: nat, f: FindingModel)
    ensures
        stale_waivers(fs, ws, n).contains(f) <==> exists|j: int|
            0 <= j < n && !in_use(fs, ws, j) && f == stale_waiver(#[trigger] ws[j]),
    decreases n,
{
    if n > 0 {
        let m = (n - 1) as nat;
        lemma_stale_from(fs, ws, m, f);
        let now = stale_waivers(fs, ws, n);
        if !in_use(fs, ws, n - 1) {
            lemma_contains_last(now, f);
            assert(now.drop_last() =~= stale_waivers(fs, ws, m));
            assert(ws[n - 1] == ws[n - 1]);
        }
    }
}

/// After waivers a report has its findings, accepted or as they were, and
/// behind them a warning for each waiver that accepted none of them.
pub proof fn stale_waivers_are_told_behind_the_findings(
    fs: Seq<FindingModel>,
    ws: Seq<WaiverModel>,
    f: FindingModel,
)
    ensures
        stale_waivers(fs, ws, ws.len()).contains(f) <==> exists|j: int|
            0 <= j < ws.len() && !in_use(fs, ws, j) && f == stale_waiver(#[trigger] ws[j]),
        forall|j: int|
            0 <= j < ws.len() ==> {
                let s = stale_waiver(#[trigger] ws[j]);
                &&& s.class == "audit"@
                &&& s.check == "stale_waiver"@
                &&& s.severity == "warning"@
                &&& s.term == ws[j].term
                &&& s.fix is None
                &&& !s.fixed
                &&& starts(s.message, "audit.waiver accepts "@ + ws[j].term + " / "@ + ws[j].check)
            },
{
    lemma_stale_from(fs, ws, ws.len(), f);
    assert forall|j: int| 0 <= j < ws.len() implies starts(
        (#[trigger] stale_waiver(ws[j])).message,
        "audit.waiver accepts "@ + ws[j].term + " / "@ + ws[j].check,
    ) by {
        let m = stale_waiver(ws[j]).message;
        let p = "audit.waiver accepts "@ + ws[j].term + " / "@ + ws[j].check;
        assert(m.take(p.len() as int) =~= p);
    }
}

/// A waiver that nothing needed is told with its term and check, the source
/// it names if it names one, and its reason.
pub proof fn a_stale_waiver_names_itself(w: WaiverModel)
    ensures
        ({
            let about = w.term + " / "@ + w.check + (if w.source is Some {
                " ("@ + w.source->Some_0 + ")"@
            } else {
                Seq::empty()
            });
            stale_waiver(w).message == "audit.waiver accepts "@ + about + " ("@ + w.reason
                + "), but nothing raised it this run — it is either resolved or stale, so drop the entry"@
        }),
{
    reveal_strlit("");
    assert(""@ =~= Seq::<char>::empty());
}

/// Two nodes are compared by the words of their lay definitions as prose in
/// lower case; a node without a definition has none.
pub proof fn nodes_are_compared_by_their_definitions(a: FileModel, b: FileModel)
    ensures
        ({
            let x = if definition(a.content) is Some {
                lower_text(plain(definition(a.content)->Some_0))
            } else {
                lower_text(Seq::empty())
            };
            let y = if definition(b.content) is Some {
                lower_text(plain(definition(b.content)->Some_0))
            } else {
                lower_text(Seq::empty())
            };
            duplicate_nodes(a, b) == duplicate_finding(a.term, b.term, vocabulary(x), vocabulary(y))
        }),
{
}

/// A fraction in hundredths comes from a double of 53 bits over a scale.
pub open spec fn rounds_through(p: int, q: int, bits: int, scale: int) -> bool {
    &&& scale == 0x10_0000_0000_0000 || scale == 0x20_0000_0000_0000 || scale
        == 0x40_0000_0000_0000
    &&& 0x10_0000_0000_0000 <= bits <= 0x20_0000_0000_0000
    &&& nearest_even(p * scale, q) == bits
    &&& hundredths(p, q) == nearest_even(100 * bits, scale)
}

/// The share of a fraction from a quarter to one in hundredths: the fraction
/// is rounded to a double, whose 53 bits are a number from two to the 52nd to
/// two to the 53rd over a power of two, and the double to hundredths.
pub proof fn shares_are_rounded_from_doubles(p: int, q: int)
    requires
        0 < q <= 4 * p,
        p <= q,
    ensures
        exists|bits: int, scale: int| #[trigger] rounds_through(p, q, bits, scale),
{
    let scale = double_scale(p, q);
    let num = p * scale;
    let bits = nearest_even(num, q);
    let low = 0x10_0000_0000_0000int;
    let high = 0x20_0000_0000_0000int;
    assert(low * q <= num <= high * q) by (nonlinear_arith)
        requires
            0 < q <= 4 * p,
            p <= q,
            num == p * scale,
            low == 0x10_0000_0000_0000int,
            high == 0x20_0000_0000_0000int,
            p >= q ==> scale == 0x10_0000_0000_0000int,
            p < q && 2 * p >= q ==> scale == 0x20_0000_0000_0000int,
            p < q && 2 * p < q ==> scale == 0x40_0000_0000_0000int,
    ;
    rounding_is_to_the_nearest(num, q);
    assert(low <= bits <= high) by (nonlinear_arith)
        requires
            0 < q,
            low * q <= num <= high * q,
            2 * (bits * q - num) <= q,
            2 * (num - bits * q) <= q,
    ;
    assert(rounds_through(p, q, bits, scale));
}

}
