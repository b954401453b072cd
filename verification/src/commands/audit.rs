//! A regular health check of an ontology and its report.
//!
//! The structure class: `lint` errors and warnings, the manifest problems of
//! the index, node links that miss the `.md` suffix (`[x](./term)`, which
//! neither lint nor the link rebaser sees), and near-duplicate slugs
//! (`signal`/`signals`) scored by the similarity of their lay definitions.
//!
//! A fix applies the safe resolutions only: appending `.md` to a suffix-less
//! link whose target node exists. Everything else is a decision and stays
//! reported. Warnings never fail the audit.

use vstd::prelude::*;
use vstd::string::*;

use crate::commands::lint;
use crate::commands::lint::{lint_results, results_of, ResultModel};
use crate::commands::source_check::quotes::{alphanumeric, letter_or_digit};
use crate::commands::toc;
use crate::commands::toc::{problems_of, toc_of, toc_problems, TocModel};
use crate::commands::waivers;
use crate::commands::waivers::{all_waived, stale_waivers, ACCEPTED};
use crate::config::{waivers_of, Config, ConfigModel, Waiver, WaiverModel};
use crate::markdown::{
    definition, extract_definition, files, plain, plain_text, terms_of, FileModel, NodeFile,
};
use crate::number::{char_of_digit, decimal, decimal_text, digit_char};
use crate::order::{lemma_sorted_set, sort_set, sorted_set};
use crate::pattern::{
    find_matches, group, group_text, hits, lemma_rewrite_same, regex_matches, rewrite,
    rewrite_hits, Found, Hit, Matches, SUFFIXLESS_LINK,
};
use crate::text::{
    chars_of, contains, contains_text, ends, ends_with, has, head, join, join_texts,
    lemma_push_text, lemma_take_next, opt_text, same, strip_suffixes, stripped_suffixes, tail,
    text_of, texts, utf8_at_least, utf8_length,
};

verus! {

/// One audit finding.
#[derive(Debug, Clone, PartialEq, Eq)]
pub struct Finding {
    /// Check class: `structure`, `sources`, `semantic`.
    pub class: String,
    /// Which check produced it: `lint`, `toc`, `link_suffix`, `near_duplicate`.
    pub check: String,
    /// `error` fails the audit; `warning` is advisory.
    pub severity: String,
    /// The node the finding is about (the slug).
    pub term: String,
    pub message: String,
    /// The safe resolution, when one exists.
    pub fix: Option<String>,
    /// Whether that resolution was applied in this run.
    pub fixed: bool,
}

/// What a finding says.
pub struct FindingModel {
    pub class: Seq<char>,
    pub check: Seq<char>,
    pub severity: Seq<char>,
    pub term: Seq<char>,
    pub message: Seq<char>,
    pub fix: Option<Seq<char>>,
    pub fixed: bool,
}

impl View for Finding {
    type V = FindingModel;

    open spec fn view(&self) -> FindingModel {
        FindingModel {
            class: self.class@,
            check: self.check@,
            severity: self.severity@,
            term: self.term@,
            message: self.message@,
            fix: opt_text(self.fix),
            fixed: self.fixed,
        }
    }
}

/// What a list of findings says.
pub open spec fn findings_of(list: Seq<Finding>) -> Seq<FindingModel> {
    Seq::new(list.len(), |i: int| list[i]@)
}

/// Appending a finding appends what it says.
pub proof fn lemma_push_finding(list: Seq<Finding>, f: Finding)
    ensures
        findings_of(list.push(f)) == findings_of(list).push(f@),
{
    assert(findings_of(list.push(f)) =~= findings_of(list).push(f@));
}

/// Counts over the findings.
#[derive(Debug, Clone, Copy, PartialEq, Eq, Structural)]
pub struct Summary {
    pub errors: usize,
    pub warnings: usize,
    pub fixable: usize,
    pub fixed: usize,
}

/// The audit report.
#[derive(Debug, Clone)]
pub struct Report {
    pub ontology: String,
    pub classes: Vec<String>,
    pub findings: Vec<Finding>,
    pub summary: Summary,
    /// `true` when no error-severity finding remains.
    pub clean: bool,
}

/// What a report says.
pub struct ReportModel {
    pub ontology: Seq<char>,
    pub classes: Seq<Seq<char>>,
    pub findings: Seq<FindingModel>,
    pub errors: nat,
    pub warnings: nat,
    pub fixable: nat,
    pub fixed: nat,
    pub clean: bool,
}

impl View for Report {
    type V = ReportModel;

    open spec fn view(&self) -> ReportModel {
        ReportModel {
            ontology: self.ontology@,
            classes: texts(self.classes@),
            findings: findings_of(self.findings@),
            errors: self.summary.errors as nat,
            warnings: self.summary.warnings as nat,
            fixable: self.summary.fixable as nat,
            fixed: self.summary.fixed as nat,
            clean: self.clean,
        }
    }
}

/// Which classes to run.
#[derive(Debug, Clone, Copy, PartialEq, Eq, Structural)]
pub struct Classes {
    pub structure: bool,
}

impl Default for Classes {
    fn default() -> (r: Classes)
        ensures
            !r.structure,
    {
        Classes { structure: false }
    }
}

impl Classes {
    /// Every class there is.
    pub fn all() -> (r: Classes)
        ensures
            r.structure,
    {
        Classes { structure: true }
    }

    /// Whether any class is to run.
    pub fn any(self) -> (r: bool)
        ensures
            r == self.structure,
    {
        self.structure
    }
}

/// A finding of the structure class.
pub open spec fn structure_finding(
    check: Seq<char>,
    severity: Seq<char>,
    term: Seq<char>,
    message: Seq<char>,
    fix: Option<Seq<char>>,
    fixed: bool,
) -> FindingModel {
    FindingModel { class: "structure"@, check, severity, term, message, fix, fixed }
}

fn finding(
    check: &str,
    severity: &str,
    term: &str,
    message: String,
    fix: Option<String>,
    fixed: bool,
) -> (r: Finding)
    ensures
        r@ == structure_finding(check@, severity@, term@, message@, opt_text(fix), fixed),
{
    Finding {
        class: "structure".to_string(),
        check: check.to_string(),
        severity: severity.to_string(),
        term: term.to_string(),
        message,
        fix,
        fixed,
    }
}

fn push_finding(out: &mut Vec<Finding>, f: Finding)
    ensures
        findings_of(final(out)@) == findings_of(old(out)@).push(f@),
{
    proof {
        lemma_push_finding(out@, f);
    }
    out.push(f);
}

// ---------------------------------------------------------------------------
// Links without a suffix
// ---------------------------------------------------------------------------

/// A suffix-less link with `.md` appended when its target node exists.
pub open spec fn with_suffix(existing: Seq<Seq<char>>) -> spec_fn(Hit) -> Seq<char> {
    |h: Hit|
        if existing.contains(group(h, 2)) {
            "["@ + group(h, 1) + "](./"@ + group(h, 2) + ".md"@ + group(h, 3) + ")"@
        } else {
            group(h, 0)
        }
}

/// A text with `.md` appended to every suffix-less link whose target node
/// exists.
pub open spec fn suffixed(content: Seq<char>, existing: Seq<Seq<char>>) -> Seq<char> {
    let m = regex_matches(SUFFIXLESS_LINK@, content);
    rewrite(m.0, m.1, with_suffix(existing))
}

/// Append `.md` to every suffix-less link whose target node exists, the links
/// being found as matches of `SUFFIXLESS_LINK`.
pub fn fix_matches(m: &Matches, existing: &Vec<String>) -> (r: String)
    ensures
        r@ == rewrite(m@.0, m@.1, with_suffix(texts(existing@))),
{
    let ghost all = hits(m.found@);
    let ghost render = with_suffix(texts(existing@));
    let mut r = String::new();
    assert(r@ =~= rewrite_hits(all.take(0), render));
    for i in 0..m.found.len()
        invariant
            all == hits(m.found@),
            render == with_suffix(texts(existing@)),
            r@ == rewrite_hits(all.take(i as int), render),
    {
        let h = &m.found[i];
        assert(all.take(i + 1).drop_last() == all.take(i as int));
        assert(all.take(i + 1).last() == h@);
        let target = group_text(h, 2);
        let mut link = String::new();
        if contains_text(existing, target.as_str()) {
            link = "[".to_string();
            link.append(group_text(h, 1).as_str());
            link.append("](./");
            link.append(target.as_str());
            link.append(".md");
            link.append(group_text(h, 3).as_str());
            link.append(")");
        } else {
            link = group_text(h, 0);
        }
        assert(link@ == render(h@));
        r.append(h.before.as_str());
        r.append(link.as_str());
    }
    assert(all.take(m.found@.len() as int) == all);
    r.append(m.rest.as_str());
    r
}

/// No match of a suffix-less link points at a node that exists.
pub open spec fn none_fixable(found: Seq<Hit>, existing: Seq<Seq<char>>) -> bool {
    forall|i: int| 0 <= i < found.len() ==> !existing.contains(group(#[trigger] found[i], 2))
}

/// Append `.md` to every suffix-less link whose target node exists. A text
/// without such a link stays as it is.
pub fn fix_suffixless_links(content: &str, existing: &Vec<String>) -> (r: String)
    ensures
        r@ == suffixed(content@, texts(existing@)),
        none_fixable(regex_matches(SUFFIXLESS_LINK@, content@).0, texts(existing@)) ==> r@
            == content@,
{
    let m = find_matches(SUFFIXLESS_LINK, content);
    proof {
        if none_fixable(m@.0, texts(existing@)) {
            lemma_rewrite_same(m@.0, |h: Hit| group(h, 0), with_suffix(texts(existing@)));
        }
    }
    fix_matches(&m, existing)
}

/// The finding about a suffix-less link.
pub open spec fn suffix_finding(
    term: Seq<char>,
    text: Seq<char>,
    target: Seq<char>,
    existing: Seq<Seq<char>>,
    fix: bool,
) -> FindingModel {
    let link = "link ["@ + text + "](./"@ + target + ") is missing the .md suffix"@;
    if existing.contains(target) {
        structure_finding(
            "link_suffix"@,
            "error"@,
            term,
            link,
            Some("rewrite (./"@ + target + ") to (./"@ + target + ".md)"@),
            fix,
        )
    } else {
        structure_finding(
            "link_suffix"@,
            "error"@,
            term,
            link + " and src/"@ + target + ".md does not exist"@,
            None,
            false,
        )
    }
}

/// Some match before the last points where the last does.
pub open spec fn repeats(found: Seq<Hit>) -> bool {
    exists|i: int|
        0 <= i < found.len() - 1 && group(#[trigger] found[i], 2) == group(found.last(), 2)
}

/// The findings about the suffix-less links of a node: one for each target.
pub open spec fn suffix_findings(
    term: Seq<char>,
    found: Seq<Hit>,
    existing: Seq<Seq<char>>,
    fix: bool,
) -> Seq<FindingModel>
    decreases found.len(),
{
    if found.len() == 0 {
        Seq::empty()
    } else {
        let front = suffix_findings(term, found.drop_last(), existing, fix);
        if repeats(found) {
            front
        } else {
            front.push(
                suffix_finding(term, group(found.last(), 1), group(found.last(), 2), existing, fix),
            )
        }
    }
}

/// The findings about the suffix-less links of the first `n` nodes.
pub open spec fn all_suffix_findings(
    all: Seq<FileModel>,
    existing: Seq<Seq<char>>,
    fix: bool,
    n: nat,
) -> Seq<FindingModel>
    decreases n,
{
    if n == 0 {
        Seq::empty()
    } else {
        all_suffix_findings(all, existing, fix, (n - 1) as nat) + suffix_findings(
            all[n - 1].term,
            regex_matches(SUFFIXLESS_LINK@, all[n - 1].content).0,
            existing,
            fix,
        )
    }
}

/// The nodes after the suffix-less links are fixed.
pub open spec fn fixed_nodes(all: Seq<FileModel>) -> Seq<FileModel> {
    Seq::new(
        all.len(),
        |i: int|
            FileModel { term: all[i].term, content: suffixed(all[i].content, terms_of(all)) },
    )
}

fn text_of_suffix_finding(term: &str, h: &Found, existing: &Vec<String>, fix: bool) -> (r: Finding)
    ensures
        r@ == suffix_finding(term@, group(h@, 1), group(h@, 2), texts(existing@), fix),
{
    let target = group_text(h, 2);
    let mut link = "link [".to_string();
    link.append(group_text(h, 1).as_str());
    link.append("](./");
    link.append(target.as_str());
    link.append(") is missing the .md suffix");
    if contains_text(existing, target.as_str()) {
        let mut how = "rewrite (./".to_string();
        how.append(target.as_str());
        how.append(") to (./");
        how.append(target.as_str());
        how.append(".md)");
        finding("link_suffix", "error", term, link, Some(how), fix)
    } else {
        link.append(" and src/");
        link.append(target.as_str());
        link.append(".md does not exist");
        finding("link_suffix", "error", term, link, None, false)
    }
}

/// The findings about the suffix-less links of a node, found as matches of
/// `SUFFIXLESS_LINK`.
pub fn suffix_findings_of(
    term: &str,
    found: &Vec<Found>,
    existing: &Vec<String>,
    fix: bool,
) -> (r: Vec<Finding>)
    ensures
        findings_of(r@) == suffix_findings(term@, hits(found@), texts(existing@), fix),
{
    let ghost all = hits(found@);
    let mut r: Vec<Finding> = Vec::new();
    let mut seen: Vec<String> = Vec::new();
    assert(findings_of(r@) =~= suffix_findings(term@, all.take(0), texts(existing@), fix));
    for i in 0..found.len()
        invariant
            all == hits(found@),
            findings_of(r@) == suffix_findings(
                term@,
                all.take(i as int),
                texts(existing@),
                fix,
            ),
            seen@.len() == i,
            forall|j: int| 0 <= j < i ==> (#[trigger] texts(seen@)[j]) == group(all[j], 2),
    {
        let h = &found[i];
        let ghost now = all.take(i + 1);
        assert(now.drop_last() == all.take(i as int));
        assert(now.last() == h@);
        let target = group_text(h, 2);
        let again = contains_text(&seen, target.as_str());
        proof {
            if again {
                let j = texts(seen@).index_of(target@);
                assert(texts(seen@)[j] == group(all[j], 2));
                assert(group(now[j], 2) == group(now.last(), 2));
            } else {
                assert forall|j: int| 0 <= j < now.len() - 1 implies group(
                    #[trigger] now[j],
                    2,
                ) != group(now.last(), 2) by {
                    assert(texts(seen@)[j] == group(all[j], 2));
                }
            }
            assert(again == repeats(now));
            lemma_push_text(seen@, target);
        }
        let ghost before = seen@;
        seen.push(target);
        assert forall|j: int| 0 <= j < i + 1 implies (#[trigger] texts(seen@)[j]) == group(
            all[j],
            2,
        ) by {
            if j < i {
                assert(texts(seen@)[j] == texts(before)[j]);
            }
        }
        if !again {
            push_finding(&mut r, text_of_suffix_finding(term, h, existing, fix));
        }
    }
    assert(all.take(found@.len() as int) == all);
    r
}

fn names_of(all: &Vec<NodeFile>) -> (r: Vec<String>)
    ensures
        texts(r@) == terms_of(files(all@)),
{
    let ghost list = terms_of(files(all@));
    let mut r: Vec<String> = Vec::new();
    assert(texts(r@) =~= list.take(0));
    for i in 0..all.len()
        invariant
            list == terms_of(files(all@)),
            texts(r@) == list.take(i as int),
    {
        proof {
            lemma_push_text(r@, all@[i as int].term);
            lemma_take_next(list, i as int);
        }
        r.push(all[i].term.clone());
    }
    assert(list.take(all@.len() as int) == list);
    r
}

/// `[text](./term)` links with no `.md` suffix. Fixable when the node of
/// `term` exists; with `fix`, the node is rewritten and the finding marked
/// fixed.
pub fn link_suffix(all: &mut Vec<NodeFile>, fix: bool) -> (r: Vec<Finding>)
    ensures
        findings_of(r@) == all_suffix_findings(
            files(old(all)@),
            terms_of(files(old(all)@)),
            fix,
            old(all)@.len(),
        ),
        files(final(all)@) == if fix {
            fixed_nodes(files(old(all)@))
        } else {
            files(old(all)@)
        },
{
    let ghost every = files(all@);
    let existing = names_of(all);
    let ghost after = if fix {
        fixed_nodes(every)
    } else {
        every
    };
    let mut out: Vec<Finding> = Vec::new();
    let mut nodes: Vec<NodeFile> = Vec::new();
    assert(findings_of(out@) =~= all_suffix_findings(every, texts(existing@), fix, 0));
    assert(files(nodes@) =~= after.take(0));
    for i in 0..all.len()
        invariant
            every == files(all@),
            texts(existing@) == terms_of(every),
            after == if fix {
                fixed_nodes(every)
            } else {
                every
            },
            findings_of(out@) == all_suffix_findings(every, texts(existing@), fix, i as nat),
            files(nodes@) == after.take(i as int),
    {
        assert(every[i as int] == all@[i as int]@);
        let term = all[i].term.as_str();
        let content = all[i].content.as_str();
        let m = find_matches(SUFFIXLESS_LINK, content);
        let mut found = suffix_findings_of(term, &m.found, &existing, fix);
        let ghost first = out@;
        let ghost second = found@;
        out.append(&mut found);
        assert(findings_of(out@) =~= findings_of(first) + findings_of(second));
        let left = if fix {
            fix_matches(&m, &existing)
        } else {
            all[i].content.clone()
        };
        let node = NodeFile { term: all[i].term.clone(), content: left };
        let ghost before = nodes@;
        nodes.push(node);
        proof {
            lemma_take_next(after, i as int);
            assert(node@ == after[i as int]);
            assert(files(nodes@) =~= files(before).push(node@));
        }
    }
    assert(after.take(all@.len() as int) == after);
    *all = nodes;
    out
}

// ---------------------------------------------------------------------------
// Near duplicates
// ---------------------------------------------------------------------------

/// The inflectional and derivational suffixes.
pub open spec fn suffixes() -> Seq<Seq<char>> {
    seq![
        "ition"@,
        "ation"@,
        "ment"@,
        "ence"@,
        "ance"@,
        "tion"@,
        "ion"@,
        "ity"@,
        "ing"@,
        "es"@,
        "ed"@,
        "s"@,
        "e"@,
    ]
}

/// A candidate stem, also with a trailing `e` dropped; nothing when it is
/// shorter than four characters.
pub open spec fn stem_forms(s: Seq<char>) -> Seq<Seq<char>> {
    if s.len() < 4 {
        Seq::empty()
    } else if ends(s, "e"@) && s.len() > 4 {
        seq![s, s.drop_last()]
    } else {
        seq![s]
    }
}

/// The candidate stems from the first `n` suffixes.
pub open spec fn suffix_stems(slug: Seq<char>, n: nat) -> Seq<Seq<char>>
    decreases n,
{
    if n == 0 {
        stem_forms(slug)
    } else {
        let suffix = suffixes()[n - 1];
        suffix_stems(slug, (n - 1) as nat) + if ends(slug, suffix) {
            stem_forms(slug.take(slug.len() - suffix.len()))
        } else {
            Seq::empty()
        }
    }
}

/// The candidate stems of a slug: the slug itself and the slug with any one
/// suffix stripped.
pub open spec fn stems_of(slug: Seq<char>) -> Seq<Seq<char>> {
    sorted_set(suffix_stems(slug, 13))
}

/// Two slugs share a candidate stem.
pub open spec fn share_stem(a: Seq<char>, b: Seq<char>) -> bool {
    exists|s: Seq<char>| #[trigger] stems_of(a).contains(s) && stems_of(b).contains(s)
}

/// Two different slugs that share a candidate stem.
pub open spec fn is_near(a: Seq<char>, b: Seq<char>) -> bool {
    a != b && share_stem(a, b)
}

fn suffix(i: usize) -> (r: &'static str)
    requires
        i < 13,
    ensures
        r@ == suffixes()[i as int],
{
    match i {
        0 => "ition",
        1 => "ation",
        2 => "ment",
        3 => "ence",
        4 => "ance",
        5 => "tion",
        6 => "ion",
        7 => "ity",
        8 => "ing",
        9 => "es",
        10 => "ed",
        11 => "s",
        _ => "e",
    }
}

fn push_stem(out: &mut Vec<String>, s: &[char])
    ensures
        texts(final(out)@) == texts(old(out)@) + stem_forms(s@),
{
    let ghost start = texts(out@);
    if s.len() >= 4 {
        let whole = text_of(s);
        proof {
            lemma_push_text(out@, whole);
        }
        out.push(whole);
        if ends_with(s, "e") {
            proof {
                reveal_strlit("e");
            }
            let total: usize = s.len();
            let shorter = head(s, total - 1);
            assert(shorter@ =~= s@.drop_last());
            if shorter.len() >= 4 {
                let rest = text_of(shorter);
                proof {
                    lemma_push_text(out@, rest);
                }
                out.push(rest);
            }
        }
    }
    assert(texts(out@) =~= start + stem_forms(s@));
}

/// The candidate stems of a slug: the slug itself and the slug with any one
/// suffix stripped, each also with a trailing `e` dropped. Stems shorter than
/// four characters are discarded so `art`/`arts` do not pair.
pub fn stems(slug: &str) -> (r: Vec<String>)
    ensures
        texts(r@) == stems_of(slug@),
{
    let cs = chars_of(slug);
    let mut out: Vec<String> = Vec::new();
    assert(texts(out@) =~= Seq::<Seq<char>>::empty());
    push_stem(&mut out, cs.as_slice());
    assert(texts(out@) =~= suffix_stems(slug@, 0));
    for i in 0..13usize
        invariant
            cs@ == slug@,
            texts(out@) == suffix_stems(slug@, i as nat),
    {
        let end = suffix(i);
        let ghost front = texts(out@);
        if ends_with(cs.as_slice(), end) {
            let total: usize = cs.len();
            let strip: usize = end.unicode_len();
            let rest = head(cs.as_slice(), total - strip);
            push_stem(&mut out, rest);
        }
        assert(texts(out@) =~= suffix_stems(slug@, (i + 1) as nat));
    }
    sort_set(&out)
}

/// Two slugs are near-duplicates when they share a candidate stem.
pub fn near(a: &str, b: &str) -> (r: bool)
    ensures
        r == is_near(a@, b@),
{
    if same(a, b) {
        return false;
    }
    let x = stems(a);
    let y = stems(b);
    let ghost list = texts(x@);
    for i in 0..x.len()
        invariant
            list == stems_of(a@),
            list == texts(x@),
            texts(y@) == stems_of(b@),
            a@ != b@,
            forall|j: int| 0 <= j < i ==> !stems_of(b@).contains(#[trigger] list[j]),
    {
        assert(list[i as int] == x@[i as int]@);
        if contains_text(&y, x[i].as_str()) {
            assert(stems_of(a@).contains(list[i as int]));
            return true;
        }
    }
    assert forall|s: Seq<char>| #[trigger] stems_of(a@).contains(s) implies !stems_of(
        b@,
    ).contains(s) by {
        let j = list.index_of(s);
        assert(!stems_of(b@).contains(list[j]));
    }
    false
}

/// The lower-case form of a text.
pub uninterp spec fn lower_text(s: Seq<char>) -> Seq<char>;

/// The lower-case form of a text.
///
/// `str::to_lowercase`, which depends on the text alone.
#[verifier::external_body]
fn lowercase(s: &str) -> (r: String)
    ensures
        r@ == lower_text(s@),
{
    s.to_lowercase()
}

/// How many letters and digits a text begins with.
pub open spec fn run_length(s: Seq<char>) -> nat
    decreases s.len(),
{
    if s.len() > 0 && letter_or_digit(s[0]) {
        1 + run_length(s.skip(1))
    } else {
        0
    }
}

proof fn lemma_run_length(s: Seq<char>)
    ensures
        run_length(s) <= s.len(),
    decreases s.len(),
{
    if s.len() > 0 && letter_or_digit(s[0]) {
        lemma_run_length(s.skip(1));
    }
}

/// The parts of a text between characters that are no letters or digits.
pub open spec fn pieces(s: Seq<char>) -> Seq<Seq<char>>
    decreases s.len(),
{
    let n = run_length(s) as int;
    if n >= s.len() {
        seq![s]
    } else {
        seq![s.take(n)] + pieces(s.skip(n + 1))
    }
}

/// Those of a list of texts that have at least three bytes.
pub open spec fn long_ones(list: Seq<Seq<char>>) -> Seq<Seq<char>>
    decreases list.len(),
{
    if list.len() == 0 {
        Seq::empty()
    } else {
        (if utf8_length(list[0]) >= 3 {
            seq![list[0]]
        } else {
            Seq::empty()
        }) + long_ones(list.skip(1))
    }
}

/// The words of a text, each once and in order.
pub open spec fn vocabulary(s: Seq<char>) -> Seq<Seq<char>> {
    sorted_set(long_ones(pieces(s)))
}

/// The words of a node's lay definition, each once and in order.
pub open spec fn definition_vocabulary(content: Seq<char>) -> Seq<Seq<char>> {
    vocabulary(
        lower_text(
            match definition(content) {
                Some(d) => plain(d),
                None => Seq::empty(),
            },
        ),
    )
}

fn length_of_run(s: &[char]) -> (r: usize)
    ensures
        r == run_length(s@),
        r <= s@.len(),
{
    let mut n: usize = 0;
    assert(s@.skip(0) == s@);
    while n < s.len() && alphanumeric(s[n])
        invariant
            n <= s@.len(),
            run_length(s@) == n + run_length(s@.skip(n as int)),
        decreases s@.len() - n,
    {
        assert(s@.skip(n as int)[0] == s@[n as int]);
        assert(s@.skip(n as int).skip(1) == s@.skip(n + 1));
        n = n + 1;
    }
    proof {
        lemma_run_length(s@);
        if n < s@.len() {
            assert(s@.skip(n as int)[0] == s@[n as int]);
        }
    }
    n
}

/// The words of a text: its runs of letters and digits of at least three
/// bytes, each once and in order.
pub fn words_in(text: &str) -> (r: Vec<String>)
    ensures
        texts(r@) == vocabulary(text@),
{
    let cs = chars_of(text);
    let ghost all = long_ones(pieces(text@));
    let mut r: Vec<String> = Vec::new();
    let mut rest = cs.as_slice();
    let mut done = false;
    assert(texts(r@) + long_ones(pieces(rest@)) =~= all);
    while !done
        invariant
            !done ==> texts(r@) + long_ones(pieces(rest@)) == all,
            done ==> texts(r@) == all,
        decreases rest@.len(), !done as int,
    {
        let n = length_of_run(rest);
        let piece = head(rest, n);
        let ghost list = pieces(rest@);
        let ghost start = texts(r@);
        if utf8_at_least(piece, 3) {
            let word = text_of(piece);
            proof {
                lemma_push_text(r@, word);
            }
            r.push(word);
        }
        if n >= rest.len() {
            proof {
                assert(piece@ =~= rest@);
                assert(list[0] == piece@);
                assert(list.skip(1) =~= Seq::<Seq<char>>::empty());
                assert(long_ones(list.skip(1)) =~= Seq::<Seq<char>>::empty());
                assert(texts(r@) =~= start + long_ones(list));
            }
            done = true;
        } else {
            let next = tail(rest, n);
            proof {
                assert(next@.skip(1) =~= rest@.skip(n + 1));
                assert(list[0] == piece@);
                assert(list.skip(1) =~= pieces(rest@.skip(n + 1)));
                assert(texts(r@) + long_ones(pieces(rest@.skip(n + 1))) =~= start + long_ones(
                    list,
                ));
            }
            rest = tail(next, 1);
        }
    }
    sort_set(&r)
}

fn definition_words(content: &str) -> (r: Vec<String>)
    ensures
        texts(r@) == definition_vocabulary(content@),
{
    let text = match extract_definition(content) {
        Some(d) => plain_text(d.as_str()),
        None => String::new(),
    };
    proof {
        if definition(content@) is None {
            assert(text@ =~= Seq::<char>::empty());
        }
    }
    let lowered = lowercase(text.as_str());
    words_in(lowered.as_str())
}

/// How many of the first `n` words of one list stand in another.
pub open spec fn shared_words(a: Seq<Seq<char>>, b: Seq<Seq<char>>, n: nat) -> nat
    decreases n,
{
    if n == 0 {
        0
    } else {
        shared_words(a, b, (n - 1) as nat) + if b.contains(a[n - 1]) {
            1nat
        } else {
            0nat
        }
    }
}

/// How many words two vocabularies have in common.
pub open spec fn in_both(a: Seq<Seq<char>>, b: Seq<Seq<char>>) -> nat {
    shared_words(a, b, a.len())
}

/// How many words two vocabularies have together: those of the one, and those
/// of the other that the one does not have.
pub open spec fn in_either(a: Seq<Seq<char>>, b: Seq<Seq<char>>) -> int {
    a.len() + b.len() - in_both(b, a)
}

/// The integer nearest a fraction, the even one of two that are as near.
pub open spec fn nearest_even(num: int, den: int) -> int {
    let q = num / den;
    let r = num % den;
    if 2 * r > den || (2 * r == den && q % 2 == 1) {
        q + 1
    } else {
        q
    }
}

/// The power of two that brings a fraction from a quarter to one to 53 bits
/// before the point.
pub open spec fn double_scale(p: int, q: int) -> int {
    if p >= q {
        0x10_0000_0000_0000
    } else if 2 * p >= q {
        0x20_0000_0000_0000
    } else {
        0x40_0000_0000_0000
    }
}

/// A fraction from a quarter to one in hundredths, rounded from the double
/// nearest to it.
pub open spec fn hundredths(p: int, q: int) -> int {
    nearest_even(100 * nearest_even(p * double_scale(p, q), q), double_scale(p, q))
}

/// A number of hundredths with two decimal places.
pub open spec fn two_places(h: int) -> Seq<char> {
    decimal((h / 100) as nat) + "."@ + seq![digit_char(h / 10 % 10), digit_char(h % 10)]
}

/// The finding about two near-duplicate terms with the words of their lay
/// definitions: there is one when the definitions overlap by a quarter.
pub open spec fn duplicate_finding(
    a: Seq<char>,
    b: Seq<char>,
    x: Seq<Seq<char>>,
    y: Seq<Seq<char>>,
) -> Option<FindingModel> {
    let both = in_both(x, y) as int;
    let either = in_either(x, y);
    if is_near(a, b) && either > 0 && 4 * both >= either {
        Some(
            structure_finding(
                "near_duplicate"@,
                "warning"@,
                a,
                "`"@ + a + "` and `"@ + b + "` look like the same term (definition similarity "@
                    + two_places(hundredths(both, either)) + ")"@,
                None,
                false,
            ),
        )
    } else {
        None
    }
}

proof fn lemma_shared_words(a: Seq<Seq<char>>, b: Seq<Seq<char>>, n: nat)
    ensures
        shared_words(a, b, n) <= n,
    decreases n,
{
    if n > 0 {
        lemma_shared_words(a, b, (n - 1) as nat);
    }
}

fn count_shared(a: &Vec<String>, b: &Vec<String>) -> (r: usize)
    ensures
        r == in_both(texts(a@), texts(b@)),
        r <= a@.len(),
{
    let ghost x = texts(a@);
    let ghost y = texts(b@);
    let mut n: usize = 0;
    for i in 0..a.len()
        invariant
            x == texts(a@),
            y == texts(b@),
            n == shared_words(x, y, i as nat),
            n <= i,
    {
        assert(x[i as int] == a@[i as int]@);
        if contains_text(b, a[i].as_str()) {
            n = n + 1;
        }
    }
    assert(x.len() == a@.len());
    n
}

fn round_even(num: u128, den: u128) -> (r: u128)
    requires
        0 < den < 0x1_0000_0000_0000_0000_0000,
        num < 0x8000_0000_0000_0000_0000_0000_0000_0000,
    ensures
        r == nearest_even(num as int, den as int),
        r <= num / den + 1,
{
    let q: u128 = num / den;
    let rest: u128 = num % den;
    if 2 * rest > den || (2 * rest == den && q % 2 == 1) {
        assert(q <= num) by (nonlinear_arith)
            requires
                q == num / den,
                den > 0,
        ;
        q + 1
    } else {
        q
    }
}

fn hundredths_of(p: u128, q: u128) -> (r: u128)
    requires
        p <= 0xffff_ffff_ffff_ffff,
        p <= q,
        0 < q <= 4 * p,
    ensures
        r == hundredths(p as int, q as int),
        r <= 200,
{
    let scale: u128 = if p >= q {
        0x10_0000_0000_0000
    } else if 2 * p >= q {
        0x20_0000_0000_0000
    } else {
        0x40_0000_0000_0000
    };
    assert(p * scale <= 0xffff_ffff_ffff_ffff * 0x40_0000_0000_0000) by (nonlinear_arith)
        requires
            p <= 0xffff_ffff_ffff_ffff,
            scale <= 0x40_0000_0000_0000,
    ;
    let scaled: u128 = p * scale;
    let mantissa = round_even(scaled, q);
    assert(scaled / q <= scale) by (nonlinear_arith)
        requires
            scaled == p * scale,
            p <= q,
            q > 0,
    ;
    assert((100 * mantissa) / scale as int <= 101) by (nonlinear_arith)
        requires
            mantissa <= scale + 1,
            scale > 100,
    ;
    round_even(100 * mantissa, scale)
}

fn two_places_text(h: u128) -> (r: String)
    requires
        h <= 0xffff_ffff_ffff_ffff,
    ensures
        r@ == two_places(h as int),
{
    let mut r = decimal_text((h / 100) as u64);
    r.append(".");
    r.push(char_of_digit((h / 10 % 10) as u8));
    r.push(char_of_digit((h % 10) as u8));
    assert(r@ =~= two_places(h as int));
    r
}

/// The finding about two terms with the words of their lay definitions.
pub fn near_duplicate(
    a: &str,
    b: &str,
    words_a: &Vec<String>,
    words_b: &Vec<String>,
) -> (r: Option<Finding>)
    ensures
        r is Some <==> duplicate_finding(a@, b@, texts(words_a@), texts(words_b@)) is Some,
        r matches Some(f) ==> duplicate_finding(a@, b@, texts(words_a@), texts(words_b@)) == Some(
            f@,
        ),
{
    if !near(a, b) {
        return None;
    }
    let both: usize = count_shared(words_a, words_b);
    let known: usize = count_shared(words_b, words_a);
    let n: usize = words_a.len();
    let m: usize = words_b.len();
    let either: u128 = n as u128 + (m - known) as u128;
    assert(texts(words_a@).len() == n && texts(words_b@).len() == m);
    if either == 0 || 4 * (both as u128) < either {
        return None;
    }
    let h = hundredths_of(both as u128, either);
    let mut message = "`".to_string();
    message.append(a);
    message.append("` and `");
    message.append(b);
    message.append("` look like the same term (definition similarity ");
    message.append(two_places_text(h).as_str());
    message.append(")");
    Some(finding("near_duplicate", "warning", a, message, None, false))
}

/// The nodes whose slug is no hyphenated compound.
pub open spec fn simple_nodes(all: Seq<FileModel>) -> Seq<FileModel>
    decreases all.len(),
{
    if all.len() == 0 {
        Seq::empty()
    } else if has(all.last().term, "-"@) {
        simple_nodes(all.drop_last())
    } else {
        simple_nodes(all.drop_last()).push(all.last())
    }
}

/// The finding about two nodes.
pub open spec fn duplicate_nodes(a: FileModel, b: FileModel) -> Option<FindingModel> {
    duplicate_finding(
        a.term,
        b.term,
        definition_vocabulary(a.content),
        definition_vocabulary(b.content),
    )
}

/// The findings about node `i` and those after it and before `n`.
pub open spec fn duplicates_of(list: Seq<FileModel>, i: int, n: int) -> Seq<FindingModel>
    decreases n - i,
{
    if n <= i + 1 {
        Seq::empty()
    } else {
        let front = duplicates_of(list, i, n - 1);
        match duplicate_nodes(list[i], list[n - 1]) {
            Some(f) => front.push(f),
            None => front,
        }
    }
}

/// The findings about the first `n` nodes, each with those after it.
pub open spec fn duplicate_findings(list: Seq<FileModel>, n: nat) -> Seq<FindingModel>
    decreases n,
{
    if n == 0 {
        Seq::empty()
    } else {
        duplicate_findings(list, (n - 1) as nat) + duplicates_of(list, n - 1, list.len() as int)
    }
}

/// Slug pairs that share a stem once one inflectional or derivational suffix
/// is stripped (`signal`/`signals`, `agree`/`agreement`,
/// `redefine`/`redefinition`) and whose lay definitions overlap. Hyphenated
/// compounds are skipped. Report only, with the Jaccard similarity of the two
/// lay definitions so the pair reads as merge or keep.
pub fn near_duplicates(all: &Vec<NodeFile>) -> (r: Vec<Finding>)
    ensures
        findings_of(r@) == duplicate_findings(
            simple_nodes(files(all@)),
            simple_nodes(files(all@)).len(),
        ),
{
    let ghost every = files(all@);
    let mut places: Vec<usize> = Vec::new();
    let ghost mut list: Seq<FileModel> = Seq::empty();
    assert(list =~= simple_nodes(every.take(0)));
    for i in 0..all.len()
        invariant
            every == files(all@),
            list == simple_nodes(every.take(i as int)),
            places@.len() == list.len(),
            forall|k: int|
                0 <= k < places@.len() ==> (#[trigger] places@[k]) < all@.len() && list[k]
                    == every[places@[k] as int],
    {
        assert(every.take(i + 1).drop_last() == every.take(i as int));
        assert(every.take(i + 1).last() == all@[i as int]@);
        let cs = chars_of(all[i].term.as_str());
        if !contains(cs.as_slice(), "-") {
            places.push(i);
            proof {
                list = list.push(every[i as int]);
            }
        }
    }
    assert(every.take(all@.len() as int) == every);
    let mut out: Vec<Finding> = Vec::new();
    assert(findings_of(out@) =~= duplicate_findings(list, 0));
    for i in 0..places.len()
        invariant
            every == files(all@),
            places@.len() == list.len(),
            forall|k: int|
                0 <= k < places@.len() ==> (#[trigger] places@[k]) < all@.len() && list[k]
                    == every[places@[k] as int],
            findings_of(out@) == duplicate_findings(list, i as nat),
    {
        let ghost start = findings_of(out@);
        let first = places[i];
        let a = &all[first];
        assert(list[i as int] == a@);
        let words_a = definition_words(a.content.as_str());
        assert(start + duplicates_of(list, i as int, i + 1) =~= start);
        for j in (i + 1)..places.len()
            invariant
                i < places@.len(),
                every == files(all@),
                places@.len() == list.len(),
                forall|k: int|
                    0 <= k < places@.len() ==> (#[trigger] places@[k]) < all@.len() && list[k]
                        == every[places@[k] as int],
                list[i as int] == a@,
                texts(words_a@) == definition_vocabulary(a@.content),
                findings_of(out@) == start + duplicates_of(list, i as int, j as int),
        {
            let second = places[j];
            let b = &all[second];
            assert(list[j as int] == b@);
            let words_b = definition_words(b.content.as_str());
            if let Some(f) = near_duplicate(a.term.as_str(), b.term.as_str(), &words_a, &words_b) {
                push_finding(&mut out, f);
            }
            assert(findings_of(out@) =~= start + duplicates_of(list, i as int, j + 1));
        }
    }
    out
}

// ---------------------------------------------------------------------------
// The structure class
// ---------------------------------------------------------------------------

/// The findings that messages of a severity make.
pub open spec fn message_findings(
    check: Seq<char>,
    severity: Seq<char>,
    term: Seq<char>,
    messages: Seq<Seq<char>>,
) -> Seq<FindingModel> {
    Seq::new(
        messages.len(),
        |i: int| structure_finding(check, severity, term, messages[i], None, false),
    )
}

/// The findings that the first `n` lint results make.
pub open spec fn lint_findings(list: Seq<ResultModel>, n: nat) -> Seq<FindingModel>
    decreases n,
{
    if n == 0 {
        Seq::empty()
    } else {
        let one = list[n - 1];
        let term = strip_suffixes(one.file, ".md"@);
        lint_findings(list, (n - 1) as nat) + message_findings(
            "lint"@,
            "error"@,
            term,
            one.errors,
        ) + message_findings("lint"@, "warning"@, term, one.warnings)
    }
}

/// The findings that problems of the index make.
pub open spec fn toc_findings(list: Seq<(Seq<char>, Seq<char>)>) -> Seq<FindingModel> {
    Seq::new(
        list.len(),
        |i: int| structure_finding("toc"@, "error"@, list[i].0, list[i].1, None, false),
    )
}

/// The index of the whole ontology at its root.
pub open spec fn root_index(config: ConfigModel, all: Seq<FileModel>) -> TocModel {
    toc_of(config, all, None, "src"@)->Ok_0
}

/// The nodes as a run leaves them.
pub open spec fn nodes_after(all: Seq<FileModel>, fix: bool) -> Seq<FileModel> {
    if fix {
        fixed_nodes(all)
    } else {
        all
    }
}

/// The findings of the structure class. Suffix-less links come first: fixed
/// ones are rewritten before lint reads the nodes, so that a fixed link never
/// also shows as a lint finding.
pub open spec fn structure_findings(
    config: ConfigModel,
    all: Seq<FileModel>,
    fix: bool,
) -> Seq<FindingModel> {
    let after = nodes_after(all, fix);
    let results = lint_results(after);
    all_suffix_findings(all, terms_of(all), fix, all.len()) + lint_findings(results, results.len())
        + toc_findings(toc_problems(root_index(config, after))) + duplicate_findings(
        simple_nodes(after),
        simple_nodes(after).len(),
    )
}

fn push_messages(
    out: &mut Vec<Finding>,
    severity: &str,
    term: &str,
    messages: &Vec<String>,
)
    ensures
        findings_of(final(out)@) == findings_of(old(out)@) + message_findings(
            "lint"@,
            severity@,
            term@,
            texts(messages@),
        ),
{
    let ghost start = findings_of(out@);
    let ghost all = message_findings("lint"@, severity@, term@, texts(messages@));
    assert(start + all.take(0) =~= start);
    for i in 0..messages.len()
        invariant
            all == message_findings("lint"@, severity@, term@, texts(messages@)),
            findings_of(out@) == start + all.take(i as int),
    {
        let f = finding("lint", severity, term, messages[i].clone(), None, false);
        proof {
            lemma_take_next(all, i as int);
            assert(f@ == all[i as int]);
        }
        push_finding(out, f);
        assert(findings_of(out@) =~= start + all.take(i + 1));
    }
    assert(all.take(messages@.len() as int) == all);
}

/// The structure class: lint, manifest check, suffix-less links, and
/// near-duplicate slugs. With `fix` the nodes are left fixed.
pub fn structure(config: &Config, all: &mut Vec<NodeFile>, fix: bool) -> (r: Vec<Finding>)
    ensures
        findings_of(r@) == structure_findings(config@, files(old(all)@), fix),
        files(final(all)@) == nodes_after(files(old(all)@), fix),
{
    let ghost every = files(all@);
    let mut out = link_suffix(all, fix);
    let ghost after = files(all@);
    let ghost first = findings_of(out@);
    let results = lint::collect(all);
    let ghost list = results_of(results@);
    proof {
        reveal_strlit(".md");
    }
    assert(first + lint_findings(list, 0) =~= first);
    for i in 0..results.len()
        invariant
            list == results_of(results@),
            ".md"@.len() == 3,
            findings_of(out@) == first + lint_findings(list, i as nat),
    {
        let one = &results[i];
        assert(list[i as int] == one@);
        let cs = chars_of(one.file.as_str());
        let term = text_of(stripped_suffixes(cs.as_slice(), ".md"));
        push_messages(&mut out, "error", term.as_str(), &one.errors);
        push_messages(&mut out, "warning", term.as_str(), &one.warnings);
        assert(findings_of(out@) =~= first + lint_findings(list, (i + 1) as nat));
    }
    assert(list.len() == results@.len());
    let ghost second = findings_of(out@);
    if let Ok(index) = toc::build(config, all, None, "src") {
        let problems = toc::problems(&index);
        let ghost found = toc_findings(problems_of(problems@));
        assert(second + found.take(0) =~= second);
        for i in 0..problems.len()
            invariant
                found == toc_findings(problems_of(problems@)),
                findings_of(out@) == second + found.take(i as int),
        {
            let f = finding(
                "toc",
                "error",
                problems[i].term.as_str(),
                problems[i].message.clone(),
                None,
                false,
            );
            proof {
                lemma_take_next(found, i as int);
                assert(f@ == found[i as int]);
            }
            push_finding(&mut out, f);
            assert(findings_of(out@) =~= second + found.take(i + 1));
        }
        assert(found.take(problems@.len() as int) == found);
    }
    let ghost third = findings_of(out@);
    let mut more = near_duplicates(all);
    let ghost before = out@;
    let ghost last = more@;
    out.append(&mut more);
    assert(findings_of(out@) =~= findings_of(before) + findings_of(last));
    out
}

// ---------------------------------------------------------------------------
// The report
// ---------------------------------------------------------------------------

/// How many of the first `n` findings have a severity.
pub open spec fn severity_total(list: Seq<FindingModel>, severity: Seq<char>, n: nat) -> nat
    decreases n,
{
    if n == 0 {
        0
    } else {
        severity_total(list, severity, (n - 1) as nat) + if list[n - 1].severity == severity {
            1nat
        } else {
            0nat
        }
    }
}

/// How many of the first `n` findings have a safe resolution.
pub open spec fn fixable_total(list: Seq<FindingModel>, n: nat) -> nat
    decreases n,
{
    if n == 0 {
        0
    } else {
        fixable_total(list, (n - 1) as nat) + if list[n - 1].fix is Some {
            1nat
        } else {
            0nat
        }
    }
}

/// How many of the first `n` findings were resolved.
pub open spec fn fixed_total(list: Seq<FindingModel>, n: nat) -> nat
    decreases n,
{
    if n == 0 {
        0
    } else {
        fixed_total(list, (n - 1) as nat) + if list[n - 1].fixed {
            1nat
        } else {
            0nat
        }
    }
}

/// The report over findings.
pub open spec fn report_of(
    ontology: Seq<char>,
    classes: Seq<Seq<char>>,
    findings: Seq<FindingModel>,
) -> ReportModel {
    ReportModel {
        ontology,
        classes,
        findings,
        errors: severity_total(findings, "error"@, findings.len()),
        warnings: severity_total(findings, "warning"@, findings.len()),
        fixable: fixable_total(findings, findings.len()),
        fixed: fixed_total(findings, findings.len()),
        clean: severity_total(findings, "error"@, findings.len()) == 0,
    }
}

/// The counts over findings.
pub fn summarize(findings: &Vec<Finding>) -> (r: Summary)
    ensures
        r.errors == severity_total(findings_of(findings@), "error"@, findings@.len()),
        r.warnings == severity_total(findings_of(findings@), "warning"@, findings@.len()),
        r.fixable == fixable_total(findings_of(findings@), findings@.len()),
        r.fixed == fixed_total(findings_of(findings@), findings@.len()),
{
    let ghost all = findings_of(findings@);
    let mut r = Summary { errors: 0, warnings: 0, fixable: 0, fixed: 0 };
    for i in 0..findings.len()
        invariant
            all == findings_of(findings@),
            r.errors == severity_total(all, "error"@, i as nat),
            r.warnings == severity_total(all, "warning"@, i as nat),
            r.fixable == fixable_total(all, i as nat),
            r.fixed == fixed_total(all, i as nat),
            r.errors <= i,
            r.warnings <= i,
            r.fixable <= i,
            r.fixed <= i,
    {
        let f = &findings[i];
        assert(all[i as int] == f@);
        if same(f.severity.as_str(), "error") {
            r.errors = r.errors + 1;
        }
        if same(f.severity.as_str(), "warning") {
            r.warnings = r.warnings + 1;
        }
        if f.fix.is_some() {
            r.fixable = r.fixable + 1;
        }
        if f.fixed {
            r.fixed = r.fixed + 1;
        }
    }
    r
}

/// The report over findings.
pub fn assemble(ontology: String, classes: Vec<String>, findings: Vec<Finding>) -> (r: Report)
    ensures
        r@ == report_of(ontology@, texts(classes@), findings_of(findings@)),
{
    let summary = summarize(&findings);
    assert(findings_of(findings@).len() == findings@.len());
    Report { ontology, classes, findings, summary, clean: summary.errors == 0 }
}

/// The classes that run, by name.
pub open spec fn class_names(classes: Classes) -> Seq<Seq<char>> {
    if classes.structure {
        seq!["structure"@]
    } else {
        Seq::empty()
    }
}

/// The report on an ontology.
pub open spec fn audit_report(
    config: ConfigModel,
    all: Seq<FileModel>,
    classes: Classes,
    fix: bool,
) -> ReportModel {
    report_of(
        config.meta.name,
        class_names(classes),
        if classes.structure {
            structure_findings(config, all, fix)
        } else {
            Seq::empty()
        },
    )
}

/// Build the report, applying safe fixes first when `fix` is set so the report
/// describes the ontology as it is left.
pub fn build(config: &Config, all: &mut Vec<NodeFile>, classes: Classes, fix: bool) -> (r: Report)
    ensures
        r@ == audit_report(config@, files(old(all)@), classes, fix),
        files(final(all)@) == nodes_after(files(old(all)@), fix && classes.structure),
{
    let mut names: Vec<String> = Vec::new();
    let mut findings: Vec<Finding> = Vec::new();
    if classes.structure {
        names.push("structure".to_string());
        findings = structure(config, all, fix);
    }
    assert(texts(names@) =~= class_names(classes));
    assert(!classes.structure ==> findings_of(findings@) =~= Seq::<FindingModel>::empty());
    assemble(config.meta.name.clone(), names, findings)
}

/// A report after waivers: accepted findings are counted neither as errors nor
/// as warnings, and waivers that nothing needed are findings of their own.
pub open spec fn accepted_report(report: ReportModel, ws: Seq<WaiverModel>) -> ReportModel {
    report_of(
        report.ontology,
        report.classes,
        all_waived(report.findings, ws) + stale_waivers(report.findings, ws, ws.len()),
    )
}

/// Apply waivers over a whole report: "the author has decided to live with
/// this" is the same decision whichever check raised it.
pub fn accept(report: Report, waivers: &Vec<Waiver>) -> (r: Report)
    ensures
        r@ == accepted_report(report@, waivers_of(waivers@)),
{
    let mut findings = report.findings;
    let mut stale = waivers::apply(&mut findings, waivers);
    let ghost first = findings@;
    let ghost second = stale@;
    findings.append(&mut stale);
    assert(findings_of(findings@) =~= findings_of(first) + findings_of(second));
    assert(waivers_of(waivers@).len() == waivers@.len());
    assemble(report.ontology, report.classes, findings)
}

/// The line of a finding.
pub open spec fn finding_line(f: FindingModel) -> Seq<char> {
    f.term + ": ["@ + f.check + "] "@ + (if f.severity == "warning"@ {
        "warn: "@
    } else {
        ""@
    }) + f.message + (if f.fixed {
        " (fixed)"@
    } else if f.fix is Some {
        " (fixable)"@
    } else {
        ""@
    }) + "\n"@
}

/// The lines of the first `n` findings.
pub open spec fn finding_lines(list: Seq<FindingModel>, n: nat) -> Seq<char>
    decreases n,
{
    if n == 0 {
        Seq::empty()
    } else {
        finding_lines(list, (n - 1) as nat) + finding_line(list[n - 1])
    }
}

/// A report as text: one line per finding, then the summary.
pub open spec fn report_text(r: ReportModel) -> Seq<char> {
    finding_lines(r.findings, r.findings.len()) + "audit ("@ + join(r.classes, ","@) + "): "@
        + decimal(r.errors) + " error(s), "@ + decimal(r.warnings) + " warning(s), "@ + decimal(
        r.fixable,
    ) + " fixable, "@ + decimal(r.fixed) + " fixed — "@ + (if r.clean {
        "clean"@
    } else {
        "findings"@
    }) + "\n"@
}

fn line_of_finding(f: &Finding) -> (r: String)
    ensures
        r@ == finding_line(f@),
{
    let mut r = f.term.clone();
    r.append(": [");
    r.append(f.check.as_str());
    r.append("] ");
    r.append(
        if same(f.severity.as_str(), "warning") {
            "warn: "
        } else {
            ""
        },
    );
    r.append(f.message.as_str());
    r.append(
        if f.fixed {
            " (fixed)"
        } else if f.fix.is_some() {
            " (fixable)"
        } else {
            ""
        },
    );
    r.append("\n");
    r
}

/// Text rendering: one line per finding, then the summary.
pub fn to_text(report: &Report) -> (r: String)
    ensures
        r@ == report_text(report@),
{
    let ghost all = findings_of(report.findings@);
    let mut out = String::new();
    for i in 0..report.findings.len()
        invariant
            all == findings_of(report.findings@),
            out@ == finding_lines(all, i as nat),
    {
        assert(all[i as int] == report.findings@[i as int]@);
        out.append(line_of_finding(&report.findings[i]).as_str());
    }
    let s = &report.summary;
    out.append("audit (");
    out.append(join_texts(&report.classes, ",").as_str());
    out.append("): ");
    out.append(decimal_text(s.errors as u64).as_str());
    out.append(" error(s), ");
    out.append(decimal_text(s.warnings as u64).as_str());
    out.append(" warning(s), ");
    out.append(decimal_text(s.fixable as u64).as_str());
    out.append(" fixable, ");
    out.append(decimal_text(s.fixed as u64).as_str());
    out.append(" fixed — ");
    out.append(
        if report.clean {
            "clean"
        } else {
            "findings"
        },
    );
    out.append("\n");
    out
}

/// What the command hands out: the report, and its text unless it is asked for
/// as JSON.
#[derive(Debug)]
pub struct Rendered {
    pub report: Report,
    pub text: Option<String>,
}

/// The classes that run: those asked for, or all of them.
pub open spec fn classes_to_run(classes: Classes) -> Classes {
    if classes.structure {
        classes
    } else {
        Classes { structure: true }
    }
}

/// The error about a format that is not known.
pub open spec fn unknown_format(format: Seq<char>) -> Seq<char> {
    "Unknown audit format '"@ + format + "' (expected \"text\" or \"json\")"@
}

/// A report in a format.
pub fn render(report: Report, format: &str) -> (r: Result<Rendered, String>)
    ensures
        match r {
            Ok(out) => {
                &&& out.report@ == report@
                &&& format@ == "json"@ || format@ == "text"@
                &&& opt_text(out.text) == if format@ == "json"@ {
                    None
                } else {
                    Some(report_text(report@))
                }
            },
            Err(e) => format@ != "json"@ && format@ != "text"@ && e@ == unknown_format(format@),
        },
{
    if same(format, "json") {
        return Ok(Rendered { report, text: None });
    }
    if same(format, "text") {
        let text = to_text(&report);
        return Ok(Rendered { report, text: Some(text) });
    }
    let mut e = "Unknown audit format '".to_string();
    e.append(format);
    e.append("' (expected \"text\" or \"json\")");
    Err(e)
}

/// Run the audit and render the report. With no class asked for every class
/// runs. The fixes are applied whatever the format.
pub fn run(
    config: &Config,
    all: &mut Vec<NodeFile>,
    classes: Classes,
    format: &str,
    fix: bool,
) -> (r: Result<Rendered, String>)
    ensures
        files(final(all)@) == nodes_after(files(old(all)@), fix),
        match r {
            Ok(out) => {
                let report = audit_report(
                    config@,
                    files(old(all)@),
                    classes_to_run(classes),
                    fix,
                );
                &&& out.report@ == report
                &&& format@ == "json"@ || format@ == "text"@
                &&& opt_text(out.text) == if format@ == "json"@ {
                    None
                } else {
                    Some(report_text(report))
                }
            },
            Err(e) => format@ != "json"@ && format@ != "text"@ && e@ == unknown_format(format@),
        },
{
    let chosen = if classes.any() {
        classes
    } else {
        Classes::all()
    };
    let report = build(config, all, chosen, fix);
    render(report, format)
}

// ---------------------------------------------------------------------------
// Laws
// ---------------------------------------------------------------------------

/// Being near-duplicates goes both ways, and no slug is its own.
pub proof fn near_goes_both_ways(a: Seq<char>, b: Seq<char>)
    ensures
        is_near(a, b) == is_near(b, a),
        !is_near(a, a),
{
    if share_stem(a, b) {
        let s = choose|s: Seq<char>| #[trigger] stems_of(a).contains(s) && stems_of(b).contains(s);
        assert(stems_of(b).contains(s) && stems_of(a).contains(s));
    }
    if share_stem(b, a) {
        let s = choose|s: Seq<char>| #[trigger] stems_of(b).contains(s) && stems_of(a).contains(s);
        assert(stems_of(a).contains(s) && stems_of(b).contains(s));
    }
}

proof fn lemma_suffix_stems(slug: Seq<char>, n: nat)
    requires
        n <= 13,
    ensures
        forall|i: int|
            0 <= i < suffix_stems(slug, n).len() ==> (#[trigger] suffix_stems(slug, n)[i]).len()
                >= 4,
    decreases n,
{
    if n > 0 {
        lemma_suffix_stems(slug, (n - 1) as nat);
        let all = suffix_stems(slug, n);
        let front = suffix_stems(slug, (n - 1) as nat);
        let suffix = suffixes()[n - 1];
        let more = stem_forms(slug.take(slug.len() - suffix.len()));
        assert forall|i: int| 0 <= i < all.len() implies (#[trigger] all[i]).len() >= 4 by {
            if i < front.len() {
                assert(all[i] == front[i]);
            } else {
                assert(all[i] == more[i - front.len()]);
            }
        }
    }
}

/// No candidate stem is shorter than four characters.
pub proof fn stems_are_not_short(slug: Seq<char>, s: Seq<char>)
    requires
        stems_of(slug).contains(s),
    ensures
        s.len() >= 4,
{
    let list = suffix_stems(slug, 13);
    lemma_sorted_set(list);
    lemma_suffix_stems(slug, 13);
    assert(list.contains(s));
    let i = list.index_of(s);
    assert(list[i].len() >= 4);
}

proof fn lemma_severity_total(list: Seq<FindingModel>, severity: Seq<char>, n: nat)
    requires
        n <= list.len(),
    ensures
        (severity_total(list, severity, n) == 0) == (forall|i: int|
            0 <= i < n ==> (#[trigger] list[i]).severity != severity),
    decreases n,
{
    if n > 0 {
        lemma_severity_total(list, severity, (n - 1) as nat);
    }
}

/// Warnings never fail an audit: a report is clean exactly when no finding is
/// an error.
pub proof fn only_errors_fail_an_audit(
    ontology: Seq<char>,
    classes: Seq<Seq<char>>,
    findings: Seq<FindingModel>,
)
    ensures
        report_of(ontology, classes, findings).clean == (forall|i: int|
            0 <= i < findings.len() ==> (#[trigger] findings[i]).severity != "error"@),
{
    lemma_severity_total(findings, "error"@, findings.len());
}

proof fn lemma_totals_apart(list: Seq<FindingModel>, n: nat)
    requires
        n <= list.len(),
    ensures
        severity_total(list, "error"@, n) + severity_total(list, "warning"@, n)
            + severity_total(list, ACCEPTED@, n) <= n,
    decreases n,
{
    reveal_strlit("error");
    reveal_strlit("warning");
    reveal_strlit("accepted");
    assert("error"@.len() == 5);
    assert("warning"@.len() == 7);
    assert(ACCEPTED@.len() == 8);
    if n > 0 {
        lemma_totals_apart(list, (n - 1) as nat);
    }
}

/// An accepted finding is counted neither as an error nor as a warning: the
/// three counts never add up to more than there are findings.
pub proof fn accepted_findings_are_not_counted(
    ontology: Seq<char>,
    classes: Seq<Seq<char>>,
    findings: Seq<FindingModel>,
)
    ensures
        ({
            let r = report_of(ontology, classes, findings);
            r.errors + r.warnings + severity_total(findings, ACCEPTED@, findings.len())
                <= findings.len()
        }),
{
    lemma_totals_apart(findings, findings.len());
}

/// A fix touches only what has a safe resolution: a finding about a
/// suffix-less link is marked fixed exactly when fixes are applied and its
/// target exists.
pub proof fn only_existing_targets_are_fixed(
    term: Seq<char>,
    text: Seq<char>,
    target: Seq<char>,
    existing: Seq<Seq<char>>,
    fix: bool,
)
    ensures
        suffix_finding(term, text, target, existing, fix).fix is Some == existing.contains(target),
        suffix_finding(term, text, target, existing, fix).fixed == (fix && existing.contains(
            target,
        )),
{
}

proof fn lemma_suffix_findings(
    term: Seq<char>,
    found: Seq<Hit>,
    existing: Seq<Seq<char>>,
    fix: bool,
    i: int,
)
    requires
        0 <= i < found.len(),
    ensures
        exists|k: int|
            0 <= k <= i && group(#[trigger] found[k], 2) == group(found[i], 2)
                && suffix_findings(term, found, existing, fix).contains(
                suffix_finding(term, group(found[k], 1), group(found[k], 2), existing, fix),
            ),
    decreases found.len(), i,
{
    let front = found.drop_last();
    let all = suffix_findings(term, found, existing, fix);
    let before = suffix_findings(term, front, existing, fix);
    if i < found.len() - 1 {
        lemma_suffix_findings(term, front, existing, fix, i);
        let k = choose|k: int|
            0 <= k <= i && group(#[trigger] front[k], 2) == group(front[i], 2)
                && before.contains(
                suffix_finding(term, group(front[k], 1), group(front[k], 2), existing, fix),
            );
        let f = suffix_finding(term, group(front[k], 1), group(front[k], 2), existing, fix);
        let j = before.index_of(f);
        assert(all[j] == f);
        assert(front[k] == found[k] && front[i] == found[i]);
        assert(all.contains(f));
    } else if repeats(found) {
        let m = choose|m: int|
            0 <= m < found.len() - 1 && group(#[trigger] found[m], 2) == group(found.last(), 2);
        lemma_suffix_findings(term, found, existing, fix, m);
    } else {
        let f = suffix_finding(term, group(found[i], 1), group(found[i], 2), existing, fix);
        assert(all.last() == f);
        assert(all.contains(f));
    }
}

/// Every suffix-less link is reported, by the finding about the first link to
/// its target.
pub proof fn every_suffixless_link_is_reported(
    term: Seq<char>,
    found: Seq<Hit>,
    existing: Seq<Seq<char>>,
    fix: bool,
    i: int,
)
    requires
        0 <= i < found.len(),
    ensures
        exists|k: int|
            0 <= k <= i && group(#[trigger] found[k], 2) == group(found[i], 2)
                && suffix_findings(term, found, existing, fix).contains(
                suffix_finding(term, group(found[k], 1), group(found[k], 2), existing, fix),
            ),
{
    lemma_suffix_findings(term, found, existing, fix, i);
}

}
