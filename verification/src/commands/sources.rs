//! The external sources each node cites and the passages it quotes from them.
//!
//! A source is an `<a href="http…">` anchor. Two shapes are recognised:
//!
//! - **standalone**: the anchor on its own line, followed by `>` blockquote
//!   lines holding the quoted passage (a `> ### Noun` heading and indented
//!   `>     sub-sense` lines are part of the same quote block);
//! - **inline**: `> <a href="…">Label</a>: passage`, the anchor inside the
//!   blockquote with the passage on the same line.
//!
//! A blockquote block ends at the next anchor, at a heading, or at any other
//! prose line; an anchor with no blockquote after it is a source with no
//! quotes.
//!
//! The lock aggregates the same data by URL: the terms citing it and, per
//! term, the status of its quotes. Rewriting it keeps what a fetch recorded
//! for URLs and terms that still cite.

use vstd::prelude::*;
use vstd::string::*;

use crate::markdown::{files, FileModel, NodeFile};
use crate::number::{decimal, decimal_text};
use crate::order::{
    lemma_contains_last, lemma_sorted_set, sort_set, sorted_set, strictly_ascending,
};
use crate::pattern::{
    find_matches, group, group_text, hits, regex_matches, Hit, ANCHOR, ARCHIVED, LABEL,
};
use crate::table::Table;
use crate::text::{
    add_all_new, append_new, char_texts, chars_of, clone_opt, clone_texts, contains, find,
    first_of, has, head, last_of, lemma_append_new, lemma_append_new_again, lemma_first_of,
    lemma_last_of, lemma_lines_break, lemma_lines_parts, lemma_push_text, lemma_take_next,
    lemma_until, lemma_without_cr, lines, lines_of, opt_str, opt_text, rfind,
    same, same_chars, starts, strip_leading, strip_prefixes, strip_trailing, stripped_leading,
    stripped_prefixes, stripped_trailing, tail, text_of, texts, trim, trim_end, trim_start,
    trimmed, trimmed_end, trimmed_start, without_cr,
};

verus! {

/// Default lockfile location, relative to the ontology directory.
pub const DEFAULT_LOCK: &'static str = "audit/sources.lock.json";

/// Quote status recorded for a term before any fetch has checked it.
pub const UNCHECKED: &'static str = "unchecked";

/// One anchor in a node and the passages quoted under it.
#[derive(Debug, Clone, PartialEq, Eq)]
pub struct SourceRef {
    pub url: String,
    /// The anchor text (empty when the label is not on the anchor's line).
    pub label: String,
    /// Quoted lines with the `>` prefix stripped, in document order.
    pub quotes: Vec<String>,
    /// The Wayback snapshots pinned beside the anchor: further anchors on the
    /// same line whose URL is `…/<timestamp>/<this url>`.
    pub archives: Vec<String>,
}

/// What a source is.
pub struct SourceModel {
    pub url: Seq<char>,
    pub label: Seq<char>,
    pub quotes: Seq<Seq<char>>,
    pub archives: Seq<Seq<char>>,
}

impl View for SourceRef {
    type V = SourceModel;

    open spec fn view(&self) -> SourceModel {
        SourceModel {
            url: self.url@,
            label: self.label@,
            quotes: texts(self.quotes@),
            archives: texts(self.archives@),
        }
    }
}

/// What a list of sources is.
pub open spec fn sources_of(refs: Seq<SourceRef>) -> Seq<SourceModel> {
    Seq::new(refs.len(), |i: int| refs[i]@)
}

impl SourceRef {
    /// The first snapshot pinned beside the anchor.
    pub fn archive(&self) -> (r: Option<String>)
        ensures
            opt_text(r) == (if self@.archives.len() > 0 {
                Some(self@.archives[0])
            } else {
                None
            }),
    {
        if self.archives.len() > 0 {
            Some(self.archives[0].clone())
        } else {
            None
        }
    }
}

/// All sources of one node.
#[derive(Debug, Clone, PartialEq, Eq)]
pub struct TermSources {
    pub term: String,
    pub sources: Vec<SourceRef>,
}

/// What the sources of one node are.
pub struct TermModel {
    pub term: Seq<char>,
    pub sources: Seq<SourceModel>,
}

impl View for TermSources {
    type V = TermModel;

    open spec fn view(&self) -> TermModel {
        TermModel { term: self.term@, sources: sources_of(self.sources@) }
    }
}

/// What the sources of all nodes are.
pub open spec fn all_sources(all: Seq<TermSources>) -> Seq<TermModel> {
    Seq::new(all.len(), |i: int| all[i]@)
}

// ---------------------------------------------------------------------------
// Archived copies
// ---------------------------------------------------------------------------

/// The page that a Wayback-style URL copies, from the matches of `ARCHIVED`.
pub open spec fn original_of_hits(hits: Seq<Hit>) -> Option<Seq<char>> {
    if hits.len() > 0 {
        Some(group(hits[0], 2))
    } else {
        None
    }
}

/// The page that a Wayback-style URL is a copy of.
pub open spec fn original(url: Seq<char>) -> Option<Seq<char>> {
    original_of_hits(regex_matches(ARCHIVED@, url).0)
}

/// The page a Wayback-style URL (`…/<timestamp>[id_]/<url>`) is a copy of.
pub fn archived_original(url: &str) -> (r: Option<String>)
    ensures
        opt_text(r) == original(url@),
{
    let m = find_matches(ARCHIVED, url);
    if m.found.len() > 0 {
        assert(hits(m.found@)[0] == m.found@[0]@);
        Some(group_text(&m.found[0], 2))
    } else {
        None
    }
}

/// `s` with the first `p` replaced.
pub open spec fn replace_first(s: Seq<char>, p: Seq<char>, new: Seq<char>) -> Seq<char> {
    match first_of(s, p) {
        Some(i) => s.take(i) + new + s.skip(i + p.len()),
        None => s,
    }
}

/// A URL without its scheme, an explicit `:80` and its trailing slashes.
pub open spec fn page_key(url: Seq<char>) -> Seq<char> {
    strip_trailing(
        replace_first(
            strip_prefixes(strip_prefixes(url, "https://"@), "http://"@),
            ":80/"@,
            "/"@,
        ),
        "/"@,
    )
}

fn key_of_page(url: &str) -> (r: Vec<char>)
    ensures
        r@ == page_key(url@),
{
    let cs = chars_of(url);
    proof {
        reveal_strlit("https://");
        reveal_strlit("http://");
        reveal_strlit(":80/");
        reveal_strlit("/");
    }
    let a = stripped_prefixes(cs.as_slice(), "https://");
    let b = stripped_prefixes(a, "http://");
    let mut c: Vec<char> = Vec::new();
    match find(b, ":80/") {
        Some(i) => {
            proof {
                lemma_first_of(b@, ":80/"@);
            }
            c.extend_from_slice(head(b, i));
            c.push('/');
            let after = tail(b, i);
            c.extend_from_slice(tail(after, 4));
            assert(b@.skip(i as int).skip(4) == b@.skip(i + 4));
            assert(c@ =~= replace_first(b@, ":80/"@, "/"@));
        },
        None => {
            c.extend_from_slice(b);
            assert(c@ =~= b@);
        },
    }
    let d = stripped_trailing(c.as_slice(), "/");
    let mut r: Vec<char> = Vec::new();
    r.extend_from_slice(d);
    assert(r@ =~= d@);
    r
}

/// Whether two URLs are of one page: equal up to scheme, an explicit `:80`
/// and trailing slashes, which archives rewrite.
pub fn same_page(a: &str, b: &str) -> (r: bool)
    ensures
        r == (page_key(a@) == page_key(b@)),
{
    let x = key_of_page(a);
    let y = key_of_page(b);
    same_chars(x.as_slice(), y.as_slice())
}

// ---------------------------------------------------------------------------
// Lines with their anchors
// ---------------------------------------------------------------------------

/// An anchor on a line, with the page it copies when it is an archived copy.
#[derive(Debug, Clone)]
pub struct AnchorRef {
    pub url: String,
    pub original: Option<String>,
}

/// What an anchor is.
pub struct AnchorModel {
    pub url: Seq<char>,
    pub original: Option<Seq<char>>,
}

impl View for AnchorRef {
    type V = AnchorModel;

    open spec fn view(&self) -> AnchorModel {
        AnchorModel { url: self.url@, original: opt_text(self.original) }
    }
}

/// A labelled anchor on a line: its whole text and its label.
#[derive(Debug, Clone)]
pub struct LabelRef {
    pub whole: String,
    pub label: String,
}

/// What a labelled anchor is.
pub struct LabelModel {
    pub whole: Seq<char>,
    pub label: Seq<char>,
}

impl View for LabelRef {
    type V = LabelModel;

    open spec fn view(&self) -> LabelModel {
        LabelModel { whole: self.whole@, label: self.label@ }
    }
}

/// A line of a node with the anchors and labelled anchors on it.
#[derive(Debug, Clone)]
pub struct SourceLine {
    pub raw: String,
    pub anchors: Vec<AnchorRef>,
    pub labels: Vec<LabelRef>,
}

/// What a line with its anchors is.
pub struct LineModel {
    pub raw: Seq<char>,
    pub anchors: Seq<AnchorModel>,
    pub labels: Seq<LabelModel>,
}

/// What a list of anchors is.
pub open spec fn anchors_of(anchors: Seq<AnchorRef>) -> Seq<AnchorModel> {
    Seq::new(anchors.len(), |i: int| anchors[i]@)
}

/// What a list of labelled anchors is.
pub open spec fn labels_of(labels: Seq<LabelRef>) -> Seq<LabelModel> {
    Seq::new(labels.len(), |i: int| labels[i]@)
}

impl View for SourceLine {
    type V = LineModel;

    open spec fn view(&self) -> LineModel {
        LineModel {
            raw: self.raw@,
            anchors: anchors_of(self.anchors@),
            labels: labels_of(self.labels@),
        }
    }
}

/// What a list of lines is.
pub open spec fn lines_model(ls: Seq<SourceLine>) -> Seq<LineModel> {
    Seq::new(ls.len(), |i: int| ls[i]@)
}

/// A line without the white space at its ends.
pub open spec fn bare(raw: Seq<char>) -> Seq<char> {
    trim_start(trim_end(raw))
}

/// A blockquote line.
pub open spec fn is_quote(raw: Seq<char>) -> bool {
    bare(raw).len() > 0 && bare(raw)[0] == '>'
}

/// The text that a line holds: of a blockquote line what it quotes.
pub open spec fn line_text(raw: Seq<char>) -> Seq<char> {
    if is_quote(raw) {
        trim(bare(raw).skip(1))
    } else {
        trim_end(raw)
    }
}

/// The anchors that the matches of `ANCHOR` are.
pub open spec fn anchors_of_hits(hits: Seq<Hit>) -> Seq<AnchorModel> {
    Seq::new(
        hits.len(),
        |i: int| AnchorModel { url: group(hits[i], 1), original: original(group(hits[i], 1)) },
    )
}

/// The labelled anchors that the matches of `LABEL` are.
pub open spec fn labels_of_hits(hits: Seq<Hit>) -> Seq<LabelModel> {
    Seq::new(
        hits.len(),
        |i: int| LabelModel { whole: group(hits[i], 0), label: group(hits[i], 1) },
    )
}

/// A line with the anchors found on it; there is none without an `<a`.
pub open spec fn line_of(raw: Seq<char>) -> LineModel {
    if has(line_text(raw), "<a"@) {
        LineModel {
            raw,
            anchors: anchors_of_hits(regex_matches(ANCHOR@, line_text(raw)).0),
            labels: labels_of_hits(regex_matches(LABEL@, line_text(raw)).0),
        }
    } else {
        LineModel { raw, anchors: Seq::empty(), labels: Seq::empty() }
    }
}

/// The lines of a node with the anchors found on them.
pub open spec fn source_lines(content: Seq<char>) -> Seq<LineModel> {
    Seq::new(lines(content).len(), |i: int| line_of(lines(content)[i]))
}

fn text_of_line(raw: &[char]) -> (r: Vec<char>)
    ensures
        r@ == line_text(raw@),
{
    let line = trimmed_end(raw);
    let t = trimmed_start(line);
    let mut r: Vec<char> = Vec::new();
    if t.len() > 0 && t[0] == '>' {
        r.extend_from_slice(trimmed(tail(t, 1)));
    } else {
        r.extend_from_slice(line);
    }
    assert(r@ =~= line_text(raw@));
    r
}

/// A line with the anchors found on it.
fn scan_line(raw: &[char]) -> (r: SourceLine)
    ensures
        r@ == line_of(raw@),
{
    let held = text_of_line(raw);
    if !contains(held.as_slice(), "<a") {
        let none = SourceLine { raw: text_of(raw), anchors: Vec::new(), labels: Vec::new() };
        assert(none@.anchors =~= Seq::<AnchorModel>::empty());
        assert(none@.labels =~= Seq::<LabelModel>::empty());
        return none;
    }
    let text = text_of(held.as_slice());
    let found = find_matches(ANCHOR, text.as_str()).found;
    let mut anchors: Vec<AnchorRef> = Vec::new();
    for i in 0..found.len()
        invariant
            anchors_of(anchors@) == anchors_of_hits(hits(found@)).take(i as int),
    {
        let ghost before = anchors@;
        let url = group_text(&found[i], 1);
        let original = archived_original(url.as_str());
        anchors.push(AnchorRef { url, original });
        proof {
            assert(hits(found@)[i as int] == found@[i as int]@);
            lemma_take_next(anchors_of_hits(hits(found@)), i as int);
            assert(anchors_of(anchors@) =~= anchors_of(before).push(anchors@[i as int]@));
        }
    }
    assert(anchors_of_hits(hits(found@)).take(found@.len() as int) == anchors_of_hits(
        hits(found@),
    ));
    let marks = find_matches(LABEL, text.as_str()).found;
    let mut labels: Vec<LabelRef> = Vec::new();
    for i in 0..marks.len()
        invariant
            labels_of(labels@) == labels_of_hits(hits(marks@)).take(i as int),
    {
        let ghost before = labels@;
        labels.push(LabelRef { whole: group_text(&marks[i], 0), label: group_text(&marks[i], 1) });
        proof {
            assert(hits(marks@)[i as int] == marks@[i as int]@);
            lemma_take_next(labels_of_hits(hits(marks@)), i as int);
            assert(labels_of(labels@) =~= labels_of(before).push(labels@[i as int]@));
        }
    }
    assert(labels_of_hits(hits(marks@)).take(marks@.len() as int) == labels_of_hits(hits(marks@)));
    SourceLine { raw: text_of(raw), anchors, labels }
}

/// The lines of a node with the anchors found on them.
pub fn scan_lines(content: &str) -> (r: Vec<SourceLine>)
    ensures
        lines_model(r@) == source_lines(content@),
{
    let cs = chars_of(content);
    let ls = lines_of(cs.as_slice());
    let mut r: Vec<SourceLine> = Vec::new();
    for i in 0..ls.len()
        invariant
            char_texts(ls@) == lines(content@),
            lines_model(r@) == source_lines(content@).take(i as int),
    {
        let ghost before = r@;
        r.push(scan_line(ls[i].as_slice()));
        proof {
            assert(lines(content@)[i as int] == ls@[i as int]@);
            lemma_take_next(source_lines(content@), i as int);
            assert(lines_model(r@) =~= lines_model(before).push(r@[i as int]@));
        }
    }
    assert(source_lines(content@).take(ls@.len() as int) == source_lines(content@));
    r
}

// ---------------------------------------------------------------------------
// Sources
// ---------------------------------------------------------------------------

/// The label of the first labelled anchor whose text holds the URL, trimmed;
/// empty when there is none.
pub open spec fn label_for(labels: Seq<LabelModel>, url: Seq<char>) -> Seq<char>
    decreases labels.len(),
{
    if labels.len() == 0 {
        Seq::empty()
    } else if has(labels[0].whole, url) {
        trim(labels[0].label)
    } else {
        label_for(labels.skip(1), url)
    }
}

fn label_on_line(labels: &Vec<LabelRef>, url: &str) -> (r: String)
    ensures
        r@ == label_for(labels_of(labels@), url@),
{
    let ghost all = labels_of(labels@);
    assert(all.skip(0) == all);
    for i in 0..labels.len()
        invariant
            all == labels_of(labels@),
            label_for(all, url@) == label_for(all.skip(i as int), url@),
    {
        assert(all.skip(i as int)[0] == labels@[i as int]@);
        assert(all.skip(i as int).skip(1) == all.skip(i + 1));
        let whole = chars_of(labels[i].whole.as_str());
        if contains(whole.as_slice(), url) {
            let label = chars_of(labels[i].label.as_str());
            return text_of(trimmed(label.as_slice()));
        }
    }
    assert(all.skip(labels@.len() as int) =~= Seq::<LabelModel>::empty());
    String::new()
}

/// The label that a standalone anchor has: the one on its line, or, when it
/// has none and the line does not close the anchor, what stands on the next
/// line before the closing tag.
pub open spec fn standalone_label(
    line: LineModel,
    next: Option<Seq<char>>,
    url: Seq<char>,
) -> Seq<char> {
    let label = label_for(line.labels, url);
    if label.len() == 0 && !(has(line_text(line.raw), "</a>"@)) && next is Some {
        match first_of(next->Some_0, "</a>"@) {
            Some(i) => trim(next->Some_0.take(i)),
            None => label,
        }
    } else {
        label
    }
}

/// The label that an anchor has in its shape.
pub open spec fn anchor_label(
    line: LineModel,
    next: Option<Seq<char>>,
    url: Seq<char>,
) -> Seq<char> {
    if is_quote(line.raw) {
        label_for(line.labels, url)
    } else {
        standalone_label(line, next, url)
    }
}

/// The anchor is an archived copy of the source just before it on the line.
pub open spec fn pins(refs: Seq<SourceModel>, last: Option<int>, a: AnchorModel) -> bool {
    &&& last matches Some(i) && 0 <= i < refs.len()
    &&& a.original matches Some(o) && page_key(refs[last->Some_0].url) == page_key(o)
}

/// The sources after one more anchor on a line: a pin of the source before
/// it, or a source of its own.
pub open spec fn add_anchor(
    refs: Seq<SourceModel>,
    last: Option<int>,
    a: AnchorModel,
    label: Seq<char>,
) -> (Seq<SourceModel>, Option<int>) {
    if pins(refs, last, a) {
        let i = last->Some_0;
        (
            refs.update(i, SourceModel { archives: refs[i].archives.push(a.url), ..refs[i] }),
            last,
        )
    } else {
        (
            refs.push(
                SourceModel { url: a.url, label, quotes: Seq::empty(), archives: Seq::empty() },
            ),
            Some(refs.len() as int),
        )
    }
}

/// The sources after the first `n` anchors of a line, and the last source
/// that this line added.
pub open spec fn add_anchors(
    refs: Seq<SourceModel>,
    line: LineModel,
    next: Option<Seq<char>>,
    n: nat,
) -> (Seq<SourceModel>, Option<int>)
    decreases n,
{
    if n == 0 {
        (refs, None)
    } else {
        let before = add_anchors(refs, line, next, (n - 1) as nat);
        let a = line.anchors[n - 1];
        add_anchor(before.0, before.1, a, anchor_label(line, next, a.url))
    }
}

/// `refs` with `quote` added to the quotes of the source at `i`.
pub open spec fn add_quote(refs: Seq<SourceModel>, i: int, quote: Seq<char>) -> Seq<SourceModel> {
    refs.update(i, SourceModel { quotes: refs[i].quotes.push(quote), ..refs[i] })
}

/// The passage after the anchors of an inline source.
pub open spec fn passage(q: Seq<char>) -> Seq<char> {
    match last_of(q, "</a>"@) {
        Some(i) => trim(strip_leading(q.skip(i + 4), ": \u{a0}—-"@)),
        None => Seq::empty(),
    }
}

fn passage_of(q: &[char]) -> (r: Vec<char>)
    ensures
        r@ == passage(q@),
{
    let mut r: Vec<char> = Vec::new();
    if let Some(at) = rfind(q, "</a>") {
        proof {
            reveal_strlit("</a>");
            lemma_last_of(q@, "</a>"@);
        }
        let after = tail(tail(q, at), 4);
        assert(q@.skip(at as int).skip(4) == q@.skip(at + 4));
        r.extend_from_slice(trimmed(stripped_leading(after, ": \u{a0}—-")));
    }
    assert(r@ =~= passage(q@));
    r
}

/// The sources found so far, and the one that collects blockquote lines.
pub struct Scan {
    pub refs: Seq<SourceModel>,
    pub current: Option<int>,
}

/// The sources after one more line.
pub open spec fn scan_step(s: Scan, line: LineModel, next: Option<Seq<char>>) -> Scan {
    let q = line_text(line.raw);
    if line.anchors.len() > 0 {
        let (refs, last) = add_anchors(s.refs, line, next, line.anchors.len());
        if is_quote(line.raw) {
            if last is Some && passage(q).len() > 0 {
                Scan { refs: add_quote(refs, last->Some_0, passage(q)), current: last }
            } else if last is Some {
                Scan { refs, current: last }
            } else {
                Scan { refs, current: s.current }
            }
        } else {
            Scan { refs, current: last }
        }
    } else if is_quote(line.raw) {
        if q.len() == 0 || q[0] == '#' {
            s
        } else if s.current is Some && 0 <= s.current->Some_0 < s.refs.len() {
            Scan { refs: add_quote(s.refs, s.current->Some_0, q), current: s.current }
        } else {
            s
        }
    } else if bare(line.raw).len() == 0 {
        s
    } else {
        Scan { refs: s.refs, current: None }
    }
}

/// The line after the `n`-th, when there is one.
pub open spec fn line_after(ls: Seq<LineModel>, n: int) -> Option<Seq<char>> {
    if 0 <= n + 1 < ls.len() {
        Some(ls[n + 1].raw)
    } else {
        None
    }
}

/// The sources in the first `n` lines.
pub open spec fn scan_sources(ls: Seq<LineModel>, n: nat) -> Scan
    decreases n,
{
    if n == 0 {
        Scan { refs: Seq::empty(), current: None }
    } else {
        scan_step(scan_sources(ls, (n - 1) as nat), ls[n - 1], line_after(ls, n - 1))
    }
}

/// The sources of a node's text.
pub open spec fn sources_in(content: Seq<char>) -> Seq<SourceModel> {
    let ls = source_lines(content);
    scan_sources(ls, ls.len()).refs
}

/// A line adds a source only when it holds an anchor, and a last added
/// source is one of them.
proof fn lemma_add_anchors(
    refs: Seq<SourceModel>,
    line: LineModel,
    next: Option<Seq<char>>,
    n: nat,
)
    requires
        n <= line.anchors.len(),
    ensures
        refs.len() <= add_anchors(refs, line, next, n).0.len() <= refs.len() + n,
        n > 0 ==> add_anchors(refs, line, next, n).1 is Some,
        add_anchors(refs, line, next, n).1 matches Some(i) ==> 0 <= i < add_anchors(
            refs,
            line,
            next,
            n,
        ).0.len(),
    decreases n,
{
    if n > 0 {
        lemma_add_anchors(refs, line, next, (n - 1) as nat);
    }
}

/// When `a` is an archived copy of the source at `last`, records it as that
/// source's pin instead of a source of its own.
fn pin_previous(refs: &mut Vec<SourceRef>, last: Option<usize>, a: &AnchorRef) -> (r: bool)
    requires
        last matches Some(i) ==> i < old(refs)@.len(),
    ensures
        r == pins(
            sources_of(old(refs)@),
            (match last {
                Some(i) => Some(i as int),
                None => None,
            }),
            a@,
        ),
        r ==> sources_of(final(refs)@) == add_anchor(
            sources_of(old(refs)@),
            Some(last->Some_0 as int),
            a@,
            Seq::empty(),
        ).0,
        !r ==> final(refs)@ == old(refs)@,
{
    match last {
        None => false,
        Some(i) => match &a.original {
            None => false,
            Some(o) => {
                if same_page(refs[i].url.as_str(), o.as_str()) {
                    let ghost before = refs@;
                    let mut archives = clone_texts(&refs[i].archives);
                    proof {
                        lemma_push_text(archives@, a.url);
                    }
                    archives.push(a.url.clone());
                    let url = refs[i].url.clone();
                    let label = refs[i].label.clone();
                    let quotes = clone_texts(&refs[i].quotes);
                    refs.set(i, SourceRef { url, label, quotes, archives });
                    assert(sources_of(refs@) =~= sources_of(before).update(i as int, refs@[i as int]@));
                    true
                } else {
                    false
                }
            },
        },
    }
}

/// Adds a quote to the source at `i`.
fn push_quote(refs: &mut Vec<SourceRef>, i: usize, quote: String)
    requires
        i < old(refs)@.len(),
    ensures
        sources_of(final(refs)@) == add_quote(sources_of(old(refs)@), i as int, quote@),
{
    let ghost before = refs@;
    let mut quotes = clone_texts(&refs[i].quotes);
    proof {
        lemma_push_text(quotes@, quote);
    }
    quotes.push(quote);
    let url = refs[i].url.clone();
    let label = refs[i].label.clone();
    let archives = clone_texts(&refs[i].archives);
    refs.set(i, SourceRef { url, label, quotes, archives });
    assert(sources_of(refs@) =~= sources_of(before).update(i as int, refs@[i as int]@));
}

/// The label of an anchor in its shape.
fn label_of_anchor(line: &SourceLine, quoted: bool, next: Option<&String>, url: &str) -> (r: String)
    requires
        quoted == is_quote(line@.raw),
    ensures
        r@ == anchor_label(
            line@,
            (match next {
                Some(s) => Some(s@),
                None => None,
            }),
            url@,
        ),
{
    let label = label_on_line(&line.labels, url);
    if quoted || label.as_str().unicode_len() > 0 {
        return label;
    }
    let raw = chars_of(line.raw.as_str());
    let text = text_of_line(raw.as_slice());
    if contains(text.as_slice(), "</a>") {
        return label;
    }
    match next {
        None => label,
        Some(s) => {
            let cs = chars_of(s.as_str());
            match find(cs.as_slice(), "</a>") {
                Some(i) => text_of(trimmed(head(cs.as_slice(), i))),
                None => label,
            }
        },
    }
}

/// The sources that lines with their anchors hold.
pub fn sources_from_lines(ls: &Vec<SourceLine>) -> (refs: Vec<SourceRef>)
    ensures
        sources_of(refs@) == scan_sources(lines_model(ls@), ls@.len()).refs,
{
    let mut refs: Vec<SourceRef> = Vec::new();
    let mut current: Option<usize> = None;
    let ghost all = lines_model(ls@);
    assert(sources_of(refs@) =~= scan_sources(all, 0).refs);
    for i in 0..ls.len()
        invariant
            all == lines_model(ls@),
            sources_of(refs@) == scan_sources(all, i as nat).refs,
            current matches Some(k) ==> k < refs@.len(),
            scan_sources(all, i as nat).current == (match current {
                Some(k) => Some(k as int),
                None => None::<int>,
            }),
    {
        let line = &ls[i];
        let ghost s = scan_sources(all, i as nat);
        let next: Option<&String> = if i + 1 < ls.len() {
            Some(&ls[i + 1].raw)
        } else {
            None
        };
        let ghost next_text = line_after(all, i as int);
        assert(all[i as int] == line@);
        assert(i + 1 < ls@.len() ==> all[i + 1] == ls@[i + 1]@);
        assert(next_text == (match next {
            Some(t) => Some(t@),
            None => None,
        }));
        let raw = chars_of(line.raw.as_str());
        let b = trimmed_start(trimmed_end(raw.as_slice()));
        let quoted = b.len() > 0 && b[0] == '>';
        assert(quoted == is_quote(line@.raw));
        let q = text_of_line(raw.as_slice());
        assert(scan_sources(all, (i + 1) as nat) == scan_step(s, line@, next_text));
        if line.anchors.len() > 0 {
            let mut last: Option<usize> = None;
            for k in 0..line.anchors.len()
                invariant
                    quoted == is_quote(line@.raw),
                    next_text == (match next {
                        Some(t) => Some(t@),
                        None => None,
                    }),
                    add_anchors(s.refs, line@, next_text, k as nat).0 == sources_of(refs@),
                    add_anchors(s.refs, line@, next_text, k as nat).1 == (match last {
                        Some(l) => Some(l as int),
                        None => None::<int>,
                    }),
                    last matches Some(l) ==> l < refs@.len(),
                    k > 0 ==> last is Some,
            {
                let a = &line.anchors[k];
                assert(line@.anchors[k as int] == a@);
                let ghost before = refs@;
                if !pin_previous(&mut refs, last, a) {
                    let label = label_of_anchor(line, quoted, next, a.url.as_str());
                    refs.push(
                        SourceRef {
                            url: a.url.clone(),
                            label,
                            quotes: Vec::new(),
                            archives: Vec::new(),
                        },
                    );
                    assert(texts(Seq::<String>::empty()) =~= Seq::<Seq<char>>::empty());
                    assert(sources_of(refs@) =~= sources_of(before).push(
                        refs@[before.len() as int]@,
                    ));
                    last = Some(refs.len() - 1);
                } else {
                    assert(sources_of(refs@).len() == sources_of(before).len());
                }
            }
            if quoted {
                if let Some(idx) = last {
                    let p = passage_of(q.as_slice());
                    if p.len() > 0 {
                        push_quote(&mut refs, idx, text_of(p.as_slice()));
                    }
                    current = Some(idx);
                }
            } else {
                current = last;
            }
        } else if quoted {
            if q.len() > 0 && q[0] != '#' {
                if let Some(idx) = current {
                    push_quote(&mut refs, idx, text_of(q.as_slice()));
                }
            }
        } else if b.len() > 0 {
            current = None;
        }
        assert(sources_of(refs@) == scan_step(s, line@, next_text).refs);
    }
    refs
}

/// Extract every anchor in a node with the passages quoted under it.
pub fn extract_sources(content: &str) -> (refs: Vec<SourceRef>)
    ensures
        sources_of(refs@) == sources_in(content@),
{
    let ls = scan_lines(content);
    assert(lines_model(ls@).len() == ls@.len());
    sources_from_lines(&ls)
}

// ---------------------------------------------------------------------------
// The lock
// ---------------------------------------------------------------------------

/// One URL in the lockfile.
#[derive(Debug)]
pub struct LockEntry {
    /// Terms whose node cites this URL (sorted, unique).
    pub cited_by: Vec<String>,
    /// RFC 3339 time of the last fetch; `None` until the audit fetches.
    pub fetched_at: Option<String>,
    /// HTTP status of the last fetch.
    pub status: Option<u16>,
    /// SHA-256 of the normalised page text at the last fetch.
    pub content_sha256: Option<String>,
    /// Per citing term: `unchecked` until fetched, then `present`, `moved`,
    /// `archived` or `missing`.
    pub quotes: Table<String>,
    /// Pinned Wayback snapshot URLs.
    pub archives: Vec<String>,
}

/// What an entry of the lock holds.
pub struct EntryModel {
    pub cited_by: Seq<Seq<char>>,
    pub fetched_at: Option<Seq<char>>,
    pub status: Option<u16>,
    pub content_sha256: Option<Seq<char>>,
    pub quotes: Map<Seq<char>, Seq<char>>,
    pub archives: Seq<Seq<char>>,
}

impl View for LockEntry {
    type V = EntryModel;

    open spec fn view(&self) -> EntryModel {
        EntryModel {
            cited_by: texts(self.cited_by@),
            fetched_at: opt_text(self.fetched_at),
            status: self.status,
            content_sha256: opt_text(self.content_sha256),
            quotes: self.quotes@,
            archives: texts(self.archives@),
        }
    }
}

impl LockEntry {
    /// The first snapshot pinned for the URL.
    pub fn archive(&self) -> (r: Option<String>)
        ensures
            opt_text(r) == (if self@.archives.len() > 0 {
                Some(self@.archives[0])
            } else {
                None
            }),
    {
        if self.archives.len() > 0 {
            Some(self.archives[0].clone())
        } else {
            None
        }
    }
}

/// The lockfile: URL to entry, in the order of the URLs.
pub type Lock = Table<LockEntry>;

/// What an optional lock holds.
pub open spec fn opt_lock(lock: Option<&Lock>) -> Map<Seq<char>, EntryModel> {
    match lock {
        Some(l) => l@,
        None => Map::empty(),
    }
}

/// The node cites the URL.
pub open spec fn cites(t: TermModel, url: Seq<char>) -> bool {
    exists|j: int| 0 <= j < t.sources.len() && (#[trigger] t.sources[j]).url == url
}

/// Some node cites the URL.
pub open spec fn cited(all: Seq<TermModel>, url: Seq<char>) -> bool {
    exists|i: int| 0 <= i < all.len() && cites(#[trigger] all[i], url)
}

/// The terms that cite the URL, in the order of the nodes.
pub open spec fn citing_terms(all: Seq<TermModel>, url: Seq<char>) -> Seq<Seq<char>>
    decreases all.len(),
{
    if all.len() == 0 {
        Seq::empty()
    } else if cites(all.last(), url) {
        citing_terms(all.drop_last(), url).push(all.last().term)
    } else {
        citing_terms(all.drop_last(), url)
    }
}

/// The snapshots that one node pins beside the URL, added to `list`.
pub open spec fn add_pins(
    list: Seq<Seq<char>>,
    refs: Seq<SourceModel>,
    url: Seq<char>,
) -> Seq<Seq<char>>
    decreases refs.len(),
{
    if refs.len() == 0 {
        list
    } else if refs.last().url == url {
        append_new(add_pins(list, refs.drop_last(), url), refs.last().archives)
    } else {
        add_pins(list, refs.drop_last(), url)
    }
}

/// The snapshots that the nodes pin beside the URL, each once, in the order
/// of the nodes and of the text.
pub open spec fn written_pins(all: Seq<TermModel>, url: Seq<char>) -> Seq<Seq<char>>
    decreases all.len(),
{
    if all.len() == 0 {
        Seq::empty()
    } else {
        add_pins(written_pins(all.drop_last(), url), all.last().sources, url)
    }
}

/// The status of a term's quotes: what was recorded, or unchecked.
pub open spec fn kept_status(prior: Option<EntryModel>, term: Seq<char>) -> Seq<char> {
    match prior {
        Some(p) => if p.quotes.dom().contains(term) {
            p.quotes[term]
        } else {
            UNCHECKED@
        },
        None => UNCHECKED@,
    }
}

/// The entry of a cited URL: who cites it now, with what an earlier lock
/// recorded for it. The pins written in the nodes come first.
pub open spec fn entry_of(
    all: Seq<TermModel>,
    prior: Option<EntryModel>,
    url: Seq<char>,
) -> EntryModel {
    let cited_by = sorted_set(citing_terms(all, url));
    EntryModel {
        cited_by,
        fetched_at: match prior {
            Some(p) => p.fetched_at,
            None => None,
        },
        status: match prior {
            Some(p) => p.status,
            None => None,
        },
        content_sha256: match prior {
            Some(p) => p.content_sha256,
            None => None,
        },
        quotes: Map::new(
            |t: Seq<char>| cited_by.contains(t),
            |t: Seq<char>| kept_status(prior, t),
        ),
        archives: match prior {
            Some(p) => append_new(written_pins(all, url), p.archives),
            None => written_pins(all, url),
        },
    }
}

/// What an earlier lock recorded for a URL.
pub open spec fn prior_entry(
    existing: Map<Seq<char>, EntryModel>,
    url: Seq<char>,
) -> Option<EntryModel> {
    if existing.dom().contains(url) {
        Some(existing[url])
    } else {
        None
    }
}

/// The lock of the nodes: one entry for each URL that a node cites.
pub open spec fn lock_of(
    all: Seq<TermModel>,
    existing: Map<Seq<char>, EntryModel>,
) -> Map<Seq<char>, EntryModel> {
    Map::new(
        |url: Seq<char>| cited(all, url),
        |url: Seq<char>| entry_of(all, prior_entry(existing, url), url),
    )
}

/// Whether the node cites the URL, with its pins for it added to `pins`.
fn collect_pins(t: &TermSources, url: &str, pins: &mut Vec<String>) -> (r: bool)
    ensures
        r == cites(t@, url@),
        texts(final(pins)@) == add_pins(texts(old(pins)@), t@.sources, url@),
{
    let ghost start = texts(pins@);
    let mut found = false;
    for j in 0..t.sources.len()
        invariant
            found == exists|k: int| 0 <= k < j && (#[trigger] t@.sources[k]).url == url@,
            texts(pins@) == add_pins(start, t@.sources.take(j as int), url@),
    {
        proof {
            assert(t@.sources.take(j + 1).drop_last() == t@.sources.take(j as int));
            assert(t@.sources.take(j + 1).last() == t@.sources[j as int]);
            assert(t@.sources[j as int] == t.sources@[j as int]@);
        }
        if same(t.sources[j].url.as_str(), url) {
            found = true;
            add_all_new(pins, &t.sources[j].archives);
        }
    }
    assert(t@.sources.take(t@.sources.len() as int) == t@.sources);
    found
}

/// The entry of a cited URL.
fn lock_entry(all: &Vec<TermSources>, prior: Option<&LockEntry>, url: &str) -> (r: LockEntry)
    ensures
        r@ == entry_of(
            all_sources(all@),
            (match prior {
                Some(p) => Some(p@),
                None => None,
            }),
            url@,
        ),
{
    let ghost every = all_sources(all@);
    let ghost was = match prior {
        Some(p) => Some(p@),
        None => None,
    };
    let mut terms: Vec<String> = Vec::new();
    let mut archives: Vec<String> = Vec::new();
    assert(texts(terms@) =~= Seq::<Seq<char>>::empty());
    assert(texts(archives@) =~= Seq::<Seq<char>>::empty());
    for i in 0..all.len()
        invariant
            every == all_sources(all@),
            texts(terms@) == citing_terms(every.take(i as int), url@),
            texts(archives@) == written_pins(every.take(i as int), url@),
    {
        proof {
            assert(every.take(i + 1).drop_last() == every.take(i as int));
            assert(every.take(i + 1).last() == all@[i as int]@);
            lemma_push_text(terms@, all@[i as int].term);
        }
        if collect_pins(&all[i], url, &mut archives) {
            terms.push(all[i].term.clone());
        }
    }
    assert(every.take(all@.len() as int) == every);
    let cited_by = sort_set(&terms);
    let ghost by_term = texts(cited_by@);
    let mut quotes: Table<String> = Table::new();
    for i in 0..cited_by.len()
        invariant
            by_term == texts(cited_by@),
            was == (match prior {
                Some(p) => Some(p@),
                None => None,
            }),
            forall|t: Seq<char>| #[trigger]
                quotes@.dom().contains(t) <==> exists|k: int| 0 <= k < i && by_term[k] == t,
            forall|t: Seq<char>| #[trigger]
                quotes@.dom().contains(t) ==> quotes@[t] == kept_status(was, t),
    {
        let term = &cited_by[i];
        assert(by_term[i as int] == term@);
        let mut status = UNCHECKED.to_string();
        if let Some(p) = prior {
            if let Some(q) = p.quotes.get(term.as_str()) {
                status = q.clone();
            }
        }
        assert(status@ == kept_status(was, term@));
        let ghost before = quotes@;
        quotes.insert(term.clone(), status);
        assert forall|t: Seq<char>| #[trigger] quotes@.dom().contains(t) <==> exists|k: int|
            0 <= k < i + 1 && by_term[k] == t by {
            if before.dom().contains(t) {
                let k = choose|k: int| 0 <= k < i && by_term[k] == t;
                assert(by_term[k] == t);
            }
        }
    }
    let ghost spec_quotes = Map::new(
        |t: Seq<char>| by_term.contains(t),
        |t: Seq<char>| kept_status(was, t),
    );
    assert(quotes@ =~= spec_quotes);
    match prior {
        Some(p) => {
            add_all_new(&mut archives, &p.archives);
            LockEntry {
                cited_by,
                fetched_at: clone_opt(&p.fetched_at),
                status: p.status,
                content_sha256: clone_opt(&p.content_sha256),
                quotes,
                archives,
            }
        },
        None => LockEntry {
            cited_by,
            fetched_at: None,
            status: None,
            content_sha256: None,
            quotes,
            archives,
        },
    }
}

/// Aggregate sources into a lock, keeping fetch results from `existing` for
/// URLs still cited and quote statuses for terms still citing.
pub fn build_lock(all: &Vec<TermSources>, existing: Option<&Lock>) -> (lock: Lock)
    ensures
        lock@ == lock_of(all_sources(all@), opt_lock(existing)),
{
    let ghost every = all_sources(all@);
    let ghost known = opt_lock(existing);
    let mut lock: Lock = Table::new();
    for i in 0..all.len()
        invariant
            every == all_sources(all@),
            known == opt_lock(existing),
            forall|u: Seq<char>| #[trigger]
                lock@.dom().contains(u) <==> cited(every.take(i as int), u),
            forall|u: Seq<char>| #[trigger]
                lock@.dom().contains(u) ==> lock@[u] == entry_of(every, prior_entry(known, u), u),
    {
        let refs = &all[i].sources;
        assert(every[i as int].sources == sources_of(refs@));
        for j in 0..refs.len()
            invariant
                i < all@.len(),
                every == all_sources(all@),
                known == opt_lock(existing),
                every[i as int].sources == sources_of(refs@),
                forall|u: Seq<char>| #[trigger]
                    lock@.dom().contains(u) <==> (cited(every.take(i as int), u) || exists|k: int|
                        0 <= k < j && (#[trigger] every[i as int].sources[k]).url == u),
                forall|u: Seq<char>| #[trigger]
                    lock@.dom().contains(u) ==> lock@[u] == entry_of(
                        every,
                        prior_entry(known, u),
                        u,
                    ),
        {
            let url = &refs[j].url;
            assert(every[i as int].sources[j as int] == refs@[j as int]@);
            let ghost before = lock@;
            if !lock.contains_key(url.as_str()) {
                let prior = match existing {
                    Some(l) => l.get(url.as_str()),
                    None => None,
                };
                let entry = lock_entry(all, prior, url.as_str());
                lock.insert(url.clone(), entry);
            }
            assert forall|u: Seq<char>| #[trigger] lock@.dom().contains(u) <==> (cited(
                every.take(i as int),
                u,
            ) || exists|k: int|
                0 <= k < j + 1 && (#[trigger] every[i as int].sources[k]).url == u) by {
                if before.dom().contains(u) && !cited(every.take(i as int), u) {
                    let k = choose|k: int|
                        0 <= k < j && (#[trigger] every[i as int].sources[k]).url == u;
                    assert(every[i as int].sources[k].url == u);
                }
            }
        }
        assert forall|u: Seq<char>| #[trigger] lock@.dom().contains(u) <==> cited(
            every.take(i + 1),
            u,
        ) by {
            lemma_cited_next(every, i as int, u);
        }
    }
    assert(every.take(all@.len() as int) == every);
    assert(lock@ =~= lock_of(every, known));
    lock
}

/// A URL is cited in the first `n + 1` nodes when it is cited in the first
/// `n` or in the next.
proof fn lemma_cited_next(all: Seq<TermModel>, n: int, url: Seq<char>)
    requires
        0 <= n < all.len(),
    ensures
        cited(all.take(n + 1), url) <==> (cited(all.take(n), url) || cites(all[n], url)),
{
    let short = all.take(n);
    let long = all.take(n + 1);
    if cited(long, url) {
        let i = choose|i: int| 0 <= i < long.len() && cites(#[trigger] long[i], url);
        if i < n {
            assert(short[i] == long[i]);
        }
    }
    if cited(short, url) {
        let i = choose|i: int| 0 <= i < short.len() && cites(#[trigger] short[i], url);
        assert(long[i] == short[i]);
    }
    if cites(all[n], url) {
        assert(long[n] == all[n]);
    }
}

// ---------------------------------------------------------------------------
// Listing
// ---------------------------------------------------------------------------

/// The sources of one node.
pub open spec fn term_sources(f: FileModel) -> TermModel {
    TermModel { term: f.term, sources: sources_in(f.content) }
}

/// The sources of every node, in the order of the nodes.
pub open spec fn sources_of_files(all: Seq<FileModel>) -> Seq<TermModel> {
    Seq::new(all.len(), |i: int| term_sources(all[i]))
}

/// The first node file of a term.
pub open spec fn file_of(all: Seq<FileModel>, term: Seq<char>) -> Option<FileModel>
    decreases all.len(),
{
    if all.len() == 0 {
        None
    } else if all[0].term == term {
        Some(all[0])
    } else {
        file_of(all.skip(1), term)
    }
}

/// The nodes that a listing covers: all of them, or that of one term.
pub open spec fn listed(all: Seq<FileModel>, term: Option<Seq<char>>) -> Option<Seq<FileModel>> {
    match term {
        None => Some(all),
        Some(t) => match file_of(all, t) {
            Some(f) => Some(seq![f]),
            None => None,
        },
    }
}

/// The error for a term that has no node.
pub open spec fn unknown_term(term: Seq<char>) -> Seq<char> {
    "Term '"@ + term + "' not found"@
}

fn sources_of_file(f: &NodeFile) -> (r: TermSources)
    ensures
        r@ == term_sources(f@),
{
    TermSources { term: f.term.clone(), sources: extract_sources(f.content.as_str()) }
}

/// Derive the sources of every node (or of `term` alone), in the order of the
/// nodes.
pub fn build(all: &Vec<NodeFile>, term: Option<&str>) -> (r: Result<Vec<TermSources>, String>)
    ensures
        match r {
            Ok(v) => listed(files(all@), opt_str(term)) is Some && all_sources(v@)
                == sources_of_files(listed(files(all@), opt_str(term))->Some_0),
            Err(e) => listed(files(all@), opt_str(term)) is None && e@ == unknown_term(
                opt_str(term)->Some_0,
            ),
        },
{
    let mut r: Vec<TermSources> = Vec::new();
    if let Some(t) = term {
        let ghost every = files(all@);
        assert(every.skip(0) == every);
        for i in 0..all.len()
            invariant
                every == files(all@),
                term == Some(t),
                file_of(every, t@) == file_of(every.skip(i as int), t@),
        {
            assert(every.skip(i as int)[0] == all@[i as int]@);
            assert(every.skip(i as int).skip(1) == every.skip(i + 1));
            if same(all[i].term.as_str(), t) {
                let mut one: Vec<TermSources> = Vec::new();
                one.push(sources_of_file(&all[i]));
                assert(file_of(every, t@) == Some(all@[i as int]@));
                assert(all_sources(one@) =~= sources_of_files(seq![all@[i as int]@]));
                return Ok(one);
            }
        }
        assert(every.skip(all@.len() as int) =~= Seq::<FileModel>::empty());
        let mut e = "Term '".to_string();
        e.append(t);
        e.append("' not found");
        return Err(e);
    }
    for i in 0..all.len()
        invariant
            all_sources(r@) == sources_of_files(files(all@)).take(i as int),
    {
        let ghost before = r@;
        r.push(sources_of_file(&all[i]));
        proof {
            assert(files(all@)[i as int] == all@[i as int]@);
            lemma_take_next(sources_of_files(files(all@)), i as int);
            assert(all_sources(r@) =~= all_sources(before).push(r@[i as int]@));
        }
    }
    assert(sources_of_files(files(all@)).take(all@.len() as int) == sources_of_files(files(all@)));
    Ok(r)
}

/// The number of quotes in a list of sources.
pub open spec fn quote_count(refs: Seq<SourceModel>) -> nat
    decreases refs.len(),
{
    if refs.len() == 0 {
        0
    } else {
        quote_count(refs.drop_last()) + refs.last().quotes.len()
    }
}

/// The number of anchors across all terms.
pub open spec fn anchor_total(all: Seq<TermModel>) -> nat
    decreases all.len(),
{
    if all.len() == 0 {
        0
    } else {
        anchor_total(all.drop_last()) + all.last().sources.len()
    }
}

/// The number of quotes across all terms.
pub open spec fn quote_total(all: Seq<TermModel>) -> nat
    decreases all.len(),
{
    if all.len() == 0 {
        0
    } else {
        quote_total(all.drop_last()) + quote_count(all.last().sources)
    }
}

/// The number of terms that cite at least one source.
pub open spec fn citing_total(all: Seq<TermModel>) -> nat
    decreases all.len(),
{
    if all.len() == 0 {
        0
    } else {
        citing_total(all.drop_last()) + if all.last().sources.len() > 0 {
            1nat
        } else {
            0nat
        }
    }
}

/// A count never exceeds the count of a longer list.
proof fn lemma_totals(all: Seq<TermModel>, n: int)
    requires
        0 <= n <= all.len(),
    ensures
        anchor_total(all.take(n)) <= anchor_total(all),
        quote_total(all.take(n)) <= quote_total(all),
        citing_total(all) <= all.len(),
    decreases all.len(),
{
    if n < all.len() {
        assert(all.drop_last().take(n) == all.take(n));
        lemma_totals(all.drop_last(), n);
    } else {
        assert(all.take(n) == all);
        if all.len() > 0 {
            lemma_totals(all.drop_last(), n - 1);
        }
    }
}

proof fn lemma_quote_count(refs: Seq<SourceModel>, n: int)
    requires
        0 <= n <= refs.len(),
    ensures
        quote_count(refs.take(n)) <= quote_count(refs),
    decreases refs.len(),
{
    if n < refs.len() {
        assert(refs.drop_last().take(n) == refs.take(n));
        lemma_quote_count(refs.drop_last(), n);
    } else {
        assert(refs.take(n) == refs);
    }
}

/// The anchor count and the quote count across all terms.
pub fn totals(all: &Vec<TermSources>) -> (r: (usize, usize))
    requires
        anchor_total(all_sources(all@)) <= usize::MAX,
        quote_total(all_sources(all@)) <= usize::MAX,
    ensures
        r.0 == anchor_total(all_sources(all@)),
        r.1 == quote_total(all_sources(all@)),
{
    let ghost every = all_sources(all@);
    let mut anchors: usize = 0;
    let mut quotes: usize = 0;
    assert(every.take(0) =~= Seq::<TermModel>::empty());
    for i in 0..all.len()
        invariant
            every == all_sources(all@),
            anchors == anchor_total(every.take(i as int)),
            quotes == quote_total(every.take(i as int)),
            anchor_total(every) <= usize::MAX,
            quote_total(every) <= usize::MAX,
    {
        let refs = &all[i].sources;
        let ghost models = sources_of(refs@);
        proof {
            lemma_totals(every, i + 1);
            assert(every.take(i + 1).drop_last() == every.take(i as int));
            assert(every.take(i + 1).last() == all@[i as int]@);
            assert(models.take(0) =~= Seq::<SourceModel>::empty());
        }
        anchors = anchors + refs.len();
        let mut n: usize = 0;
        for k in 0..refs.len()
            invariant
                models == sources_of(refs@),
                n == quote_count(models.take(k as int)),
                quotes + quote_count(models) <= usize::MAX,
        {
            proof {
                lemma_quote_count(models, k + 1);
                assert(models.take(k + 1).drop_last() == models.take(k as int));
                assert(models.take(k + 1).last() == refs@[k as int]@);
            }
            n = n + refs[k].quotes.len();
        }
        assert(models.take(refs@.len() as int) == models);
        quotes = quotes + n;
    }
    assert(every.take(all@.len() as int) == every);
    (anchors, quotes)
}

/// The line of one source in the listing.
pub open spec fn source_text(s: SourceModel) -> Seq<char> {
    "  "@ + s.url + (if s.label.len() == 0 {
        Seq::empty()
    } else {
        " — "@ + s.label
    }) + " — "@ + decimal(s.quotes.len()) + " quote(s)\n"@
}

/// The lines of the first `n` sources in the listing.
pub open spec fn source_texts(refs: Seq<SourceModel>, n: nat) -> Seq<char>
    decreases n,
{
    if n == 0 {
        Seq::empty()
    } else {
        source_texts(refs, (n - 1) as nat) + source_text(refs[n - 1])
    }
}

/// The lines of one term in the listing: none when it cites nothing.
pub open spec fn term_text(t: TermModel) -> Seq<char> {
    if t.sources.len() == 0 {
        Seq::empty()
    } else {
        t.term + " ("@ + decimal(t.sources.len()) + " source(s))\n"@ + source_texts(
            t.sources,
            t.sources.len(),
        )
    }
}

/// The lines of the first `n` terms in the listing.
pub open spec fn term_texts(all: Seq<TermModel>, n: nat) -> Seq<char>
    decreases n,
{
    if n == 0 {
        Seq::empty()
    } else {
        term_texts(all, (n - 1) as nat) + term_text(all[n - 1])
    }
}

/// The listing: every term that cites something, then the totals.
pub open spec fn listing(all: Seq<TermModel>) -> Seq<char> {
    term_texts(all, all.len()) + decimal(anchor_total(all)) + " anchor(s) in "@ + decimal(
        citing_total(all),
    ) + " of "@ + decimal(all.len()) + " term(s), "@ + decimal(quote_total(all)) + " quote(s)\n"@
}

fn text_of_source(s: &SourceRef) -> (r: String)
    ensures
        r@ == source_text(s@),
{
    let mut r = "  ".to_string();
    r.append(s.url.as_str());
    if s.label.as_str().unicode_len() > 0 {
        let mut label = " — ".to_string();
        label.append(s.label.as_str());
        r.append(label.as_str());
    } else {
        r.append("");
        proof {
            reveal_strlit("");
            assert(""@ =~= Seq::<char>::empty());
        }
    }
    r.append(" — ");
    r.append(decimal_text(s.quotes.len() as u64).as_str());
    r.append(" quote(s)\n");
    r
}

/// Human-readable listing.
pub fn to_text(all: &Vec<TermSources>) -> (r: String)
    requires
        anchor_total(all_sources(all@)) <= usize::MAX,
        quote_total(all_sources(all@)) <= usize::MAX,
    ensures
        r@ == listing(all_sources(all@)),
{
    let ghost every = all_sources(all@);
    let mut r = String::new();
    let mut cited: usize = 0;
    assert(every.take(0) =~= Seq::<TermModel>::empty());
    for i in 0..all.len()
        invariant
            every == all_sources(all@),
            r@ == term_texts(every, i as nat),
            cited == citing_total(every.take(i as int)),
            cited <= i,
    {
        let t = &all[i];
        assert(every[i as int] == t@);
        proof {
            assert(every.take(i + 1).drop_last() == every.take(i as int));
            assert(every.take(i + 1).last() == t@);
        }
        if t.sources.len() > 0 {
            cited = cited + 1;
            let mut text = t.term.clone();
            text.append(" (");
            text.append(decimal_text(t.sources.len() as u64).as_str());
            text.append(" source(s))\n");
            let mut body = String::new();
            for k in 0..t.sources.len()
                invariant
                    body@ == source_texts(t@.sources, k as nat),
            {
                assert(t@.sources[k as int] == t.sources@[k as int]@);
                body.append(text_of_source(&t.sources[k]).as_str());
            }
            text.append(body.as_str());
            assert(text@ == term_text(t@));
            r.append(text.as_str());
        } else {
            assert(r@ + term_text(t@) == r@);
        }
    }
    assert(every.take(all@.len() as int) == every);
    let (anchors, quotes) = totals(all);
    r.append(decimal_text(anchors as u64).as_str());
    r.append(" anchor(s) in ");
    r.append(decimal_text(cited as u64).as_str());
    r.append(" of ");
    r.append(decimal_text(all.len() as u64).as_str());
    r.append(" term(s), ");
    r.append(decimal_text(quotes as u64).as_str());
    r.append(" quote(s)\n");
    r
}

/// Whether the totals of a listing can be counted.
pub fn countable(all: &Vec<TermSources>) -> (r: bool)
    ensures
        r == (anchor_total(all_sources(all@)) <= usize::MAX && quote_total(all_sources(all@))
            <= usize::MAX),
{
    let ghost every = all_sources(all@);
    let mut anchors: usize = 0;
    let mut quotes: usize = 0;
    assert(every.take(0) =~= Seq::<TermModel>::empty());
    for i in 0..all.len()
        invariant
            every == all_sources(all@),
            anchors == anchor_total(every.take(i as int)),
            quotes == quote_total(every.take(i as int)),
    {
        let refs = &all[i].sources;
        let ghost models = sources_of(refs@);
        proof {
            lemma_totals(every, i + 1);
            assert(every.take(i + 1).drop_last() == every.take(i as int));
            assert(every.take(i + 1).last() == all@[i as int]@);
            assert(models.take(0) =~= Seq::<SourceModel>::empty());
        }
        match anchors.checked_add(refs.len()) {
            Some(n) => {
                anchors = n;
            },
            None => {
                return false;
            },
        }
        let ghost before = quotes;
        for k in 0..refs.len()
            invariant
                i < all@.len(),
                every == all_sources(all@),
                models == sources_of(refs@),
                models == every[i as int].sources,
                before == quote_total(every.take(i as int)),
                quotes == before + quote_count(models.take(k as int)),
        {
            proof {
                lemma_quote_count(models, k + 1);
                assert(models.take(k + 1).drop_last() == models.take(k as int));
                assert(models.take(k + 1).last() == refs@[k as int]@);
                lemma_totals(every, i + 1);
                assert(every.take(i + 1).drop_last() == every.take(i as int));
                assert(every.take(i + 1).last() == every[i as int]);
            }
            match quotes.checked_add(refs[k].quotes.len()) {
                Some(n) => {
                    quotes = n;
                },
                None => {
                    return false;
                },
            }
        }
        assert(models.take(refs@.len() as int) == models);
    }
    assert(every.take(all@.len() as int) == every);
    true
}

/// The message when the lock is asked for of one term.
pub open spec fn lock_of_a_term() -> Seq<char> {
    "--lock covers the whole ontology; drop the term argument"@
}

/// The sources that the command is about: those of the whole ontology for the
/// lock, and those of the term given, or of all, for a listing.
pub fn select(all: &Vec<NodeFile>, term: Option<&str>, lock: bool) -> (r: Result<
    Vec<TermSources>,
    String,
>)
    ensures
        match r {
            Ok(v) => {
                &&& !(lock && term is Some)
                &&& listed(files(all@), opt_str(term)) is Some
                &&& all_sources(v@) == sources_of_files(
                    listed(files(all@), opt_str(term))->Some_0,
                )
            },
            Err(e) => if lock && term is Some {
                e@ == lock_of_a_term()
            } else {
                listed(files(all@), opt_str(term)) is None && e@ == unknown_term(
                    opt_str(term)->Some_0,
                )
            },
        },
{
    if lock && term.is_some() {
        return Err("--lock covers the whole ontology; drop the term argument".to_string());
    }
    build(all, term)
}

/// The line that says what a lock was written from.
pub open spec fn written(all: Seq<TermModel>, urls: nat, path: Seq<char>) -> Seq<char> {
    "sources: "@ + decimal(urls) + " url(s) from "@ + decimal(anchor_total(all))
        + " anchor(s) in "@ + decimal(all.len()) + " term(s) ("@ + decimal(quote_total(all))
        + " quote(s)) written to "@ + path
}

/// The line that says what a lock was written from.
pub fn written_line(all: &Vec<TermSources>, lock: &Lock, path: &str) -> (r: String)
    requires
        anchor_total(all_sources(all@)) <= usize::MAX,
        quote_total(all_sources(all@)) <= usize::MAX,
    ensures
        r@ == written(all_sources(all@), lock.keys().len(), path@),
{
    let (anchors, quotes) = totals(all);
    let mut r = "sources: ".to_string();
    r.append(decimal_text(lock.len() as u64).as_str());
    r.append(" url(s) from ");
    r.append(decimal_text(anchors as u64).as_str());
    r.append(" anchor(s) in ");
    r.append(decimal_text(all.len() as u64).as_str());
    r.append(" term(s) (");
    r.append(decimal_text(quotes as u64).as_str());
    r.append(" quote(s)) written to ");
    r.append(path);
    assert(all_sources(all@).len() == all@.len());
    r
}

// ---------------------------------------------------------------------------
// Laws
// ---------------------------------------------------------------------------

/// The number of snapshots pinned in a list of sources.
pub open spec fn pin_count(refs: Seq<SourceModel>) -> nat
    decreases refs.len(),
{
    if refs.len() == 0 {
        0
    } else {
        pin_count(refs.drop_last()) + refs.last().archives.len()
    }
}

/// The number of anchors on the first `n` lines.
pub open spec fn anchor_count(ls: Seq<LineModel>, n: nat) -> nat
    decreases n,
{
    if n == 0 {
        0
    } else {
        anchor_count(ls, (n - 1) as nat) + ls[n - 1].anchors.len()
    }
}

proof fn lemma_pin_count_update(refs: Seq<SourceModel>, i: int, s: SourceModel)
    requires
        0 <= i < refs.len(),
    ensures
        pin_count(refs.update(i, s)) + refs[i].archives.len() == pin_count(refs)
            + s.archives.len(),
    decreases refs.len(),
{
    if i < refs.len() - 1 {
        lemma_pin_count_update(refs.drop_last(), i, s);
        assert(refs.update(i, s).drop_last() =~= refs.drop_last().update(i, s));
    } else {
        assert(refs.update(i, s).drop_last() =~= refs.drop_last());
    }
}

proof fn lemma_anchors_counted(
    refs: Seq<SourceModel>,
    line: LineModel,
    next: Option<Seq<char>>,
    n: nat,
)
    requires
        n <= line.anchors.len(),
    ensures
        ({
            let after = add_anchors(refs, line, next, n).0;
            after.len() + pin_count(after) == refs.len() + pin_count(refs) + n
        }),
    decreases n,
{
    if n > 0 {
        lemma_anchors_counted(refs, line, next, (n - 1) as nat);
        let (mid, last) = add_anchors(refs, line, next, (n - 1) as nat);
        let a = line.anchors[n - 1];
        if pins(mid, last, a) {
            let i = last->Some_0;
            lemma_pin_count_update(
                mid,
                i,
                SourceModel { archives: mid[i].archives.push(a.url), ..mid[i] },
            );
        } else {
            let after = add_anchors(refs, line, next, n).0;
            assert(after.drop_last() =~= mid);
        }
    }
}

proof fn lemma_lines_counted(ls: Seq<LineModel>, n: nat)
    requires
        n <= ls.len(),
    ensures
        ({
            let refs = scan_sources(ls, n).refs;
            refs.len() + pin_count(refs) == anchor_count(ls, n)
        }),
    decreases n,
{
    if n > 0 {
        lemma_lines_counted(ls, (n - 1) as nat);
        let s = scan_sources(ls, (n - 1) as nat);
        let line = ls[n - 1];
        let next = line_after(ls, n - 1);
        let q = line_text(line.raw);
        lemma_anchors_counted(s.refs, line, next, line.anchors.len());
        lemma_add_anchors(s.refs, line, next, line.anchors.len());
        let (refs, last) = add_anchors(s.refs, line, next, line.anchors.len());
        if line.anchors.len() > 0 {
            if is_quote(line.raw) && passage(q).len() > 0 {
                let i = last->Some_0;
                lemma_pin_count_update(
                    refs,
                    i,
                    SourceModel { quotes: refs[i].quotes.push(passage(q)), ..refs[i] },
                );
            }
        } else if is_quote(line.raw) && s.current is Some && 0 <= s.current->Some_0 < s.refs.len() {
            let i = s.current->Some_0;
            lemma_pin_count_update(
                s.refs,
                i,
                SourceModel { quotes: s.refs[i].quotes.push(q), ..s.refs[i] },
            );
        }
    }
}

/// Every anchor of a node is a source of its own or pinned beside one, and
/// nothing else is.
pub proof fn every_anchor_is_a_source_or_a_pin(content: Seq<char>)
    ensures
        sources_in(content).len() + pin_count(sources_in(content)) == anchor_count(
            source_lines(content),
            source_lines(content).len(),
        ),
{
    lemma_lines_counted(source_lines(content), source_lines(content).len());
}

proof fn lemma_anchors_keep(
    refs: Seq<SourceModel>,
    line: LineModel,
    next: Option<Seq<char>>,
    n: nat,
)
    requires
        n <= line.anchors.len(),
    ensures
        refs.len() <= add_anchors(refs, line, next, n).0.len(),
        forall|i: int|
            0 <= i < refs.len() ==> (#[trigger] add_anchors(refs, line, next, n).0[i]) == refs[i],
        add_anchors(refs, line, next, n).1 matches Some(i) ==> refs.len() <= i,
    decreases n,
{
    if n > 0 {
        lemma_anchors_keep(refs, line, next, (n - 1) as nat);
    }
}

/// Sources stand in document order: reading on past the first `n` lines adds
/// sources after those found before, whose URL, label and pins stay as they
/// were.
pub proof fn sources_stand_in_document_order(ls: Seq<LineModel>, n: nat, m: nat)
    requires
        n <= m <= ls.len(),
    ensures
        scan_sources(ls, n).refs.len() <= scan_sources(ls, m).refs.len(),
        forall|i: int|
            0 <= i < scan_sources(ls, n).refs.len() ==> {
                let a = scan_sources(ls, n).refs[i];
                let b = #[trigger] scan_sources(ls, m).refs[i];
                &&& a.url == b.url
                &&& a.label == b.label
                &&& a.archives == b.archives
                &&& a.quotes.is_prefix_of(b.quotes)
            },
    decreases m,
{
    if n < m {
        sources_stand_in_document_order(ls, n, (m - 1) as nat);
        let s = scan_sources(ls, (m - 1) as nat);
        let line = ls[m - 1];
        let next = line_after(ls, m - 1);
        lemma_anchors_keep(s.refs, line, next, line.anchors.len());
        let (refs, last) = add_anchors(s.refs, line, next, line.anchors.len());
        lemma_add_anchors(s.refs, line, next, line.anchors.len());
        let after = scan_sources(ls, m).refs;
        assert forall|i: int| 0 <= i < s.refs.len() implies {
            let a = s.refs[i];
            let b = #[trigger] after[i];
            &&& a.url == b.url
            &&& a.label == b.label
            &&& a.archives == b.archives
            &&& a.quotes.is_prefix_of(b.quotes)
        } by {
            assert(refs[i] == s.refs[i] || line.anchors.len() == 0);
        }
        assert forall|i: int| 0 <= i < scan_sources(ls, n).refs.len() implies {
            let a = scan_sources(ls, n).refs[i];
            let b = #[trigger] scan_sources(ls, m).refs[i];
            &&& a.url == b.url
            &&& a.label == b.label
            &&& a.archives == b.archives
            &&& a.quotes.is_prefix_of(b.quotes)
        } by {
            let a = scan_sources(ls, n).refs[i];
            let mid = s.refs[i];
            let b = after[i];
            assert(a.quotes.is_prefix_of(mid.quotes));
            assert(mid.quotes.is_prefix_of(b.quotes));
            assert(a.quotes =~= b.quotes.take(a.quotes.len() as int));
        }
    }
}

/// The label that the line behind an anchor gives it, when that line closes
/// the anchor.
spec fn label_in(next: Option<Seq<char>>) -> Option<Seq<char>> {
    match next {
        Some(text) => match first_of(text, "</a>"@) {
            Some(i) => Some(trim(text.take(i))),
            None => None,
        },
        None => None,
    }
}

/// Two lines give a scan the same.
spec fn alike(a: LineModel, b: LineModel) -> bool {
    &&& a.anchors == b.anchors
    &&& a.labels == b.labels
    &&& trim_end(a.raw) == trim_end(b.raw)
}

proof fn lemma_anchors_alike(
    refs: Seq<SourceModel>,
    a: LineModel,
    b: LineModel,
    na: Option<Seq<char>>,
    nb: Option<Seq<char>>,
    n: nat,
)
    requires
        alike(a, b),
        label_in(na) == label_in(nb),
    ensures
        add_anchors(refs, a, na, n) == add_anchors(refs, b, nb, n),
    decreases n,
{
    if n > 0 {
        lemma_anchors_alike(refs, a, b, na, nb, (n - 1) as nat);
    }
}

proof fn lemma_scan_alike(x: Seq<LineModel>, y: Seq<LineModel>, n: nat)
    requires
        n <= x.len(),
        n <= y.len(),
        forall|i: int| 0 <= i < n ==> alike(#[trigger] x[i], y[i]),
        forall|i: int|
            0 <= i < n ==> label_in(#[trigger] line_after(x, i)) == label_in(line_after(y, i)),
    ensures
        scan_sources(x, n) == scan_sources(y, n),
    decreases n,
{
    if n > 0 {
        lemma_scan_alike(x, y, (n - 1) as nat);
        let s = scan_sources(x, (n - 1) as nat);
        let a = x[n - 1];
        let b = y[n - 1];
        assert(alike(a, b));
        lemma_anchors_alike(
            s.refs,
            a,
            b,
            line_after(x, n - 1),
            line_after(y, n - 1),
            a.anchors.len(),
        );
    }
}

/// A scan behind other sources.
spec fn behind(r: Seq<SourceModel>, s: Scan) -> Scan {
    Scan {
        refs: r + s.refs,
        current: match s.current {
            Some(i) => Some(i + r.len()),
            None => None,
        },
    }
}

proof fn lemma_anchors_behind(
    r: Seq<SourceModel>,
    refs: Seq<SourceModel>,
    line: LineModel,
    next: Option<Seq<char>>,
    n: nat,
)
    requires
        n <= line.anchors.len(),
    ensures
        ({
            let alone = add_anchors(refs, line, next, n);
            let both = add_anchors(r + refs, line, next, n);
            &&& both.0 == r + alone.0
            &&& both.1 == (match alone.1 {
                Some(i) => Some(i + r.len()),
                None => None,
            })
        }),
    decreases n,
{
    if n > 0 {
        lemma_anchors_behind(r, refs, line, next, (n - 1) as nat);
        lemma_add_anchors(refs, line, next, (n - 1) as nat);
        let alone = add_anchors(refs, line, next, (n - 1) as nat);
        let both = add_anchors(r + refs, line, next, (n - 1) as nat);
        let a = line.anchors[n - 1];
        if let Some(i) = alone.1 {
            assert(both.0[i + r.len()] == alone.0[i]);
        }
        assert(add_anchors(r + refs, line, next, n).0 =~= r + add_anchors(refs, line, next, n).0);
    }
}

proof fn lemma_step_behind(
    r: Seq<SourceModel>,
    s: Scan,
    line: LineModel,
    next: Option<Seq<char>>,
)
    requires
        s.current matches Some(i) ==> 0 <= i < s.refs.len(),
    ensures
        scan_step(behind(r, s), line, next) == behind(r, scan_step(s, line, next)),
        scan_step(s, line, next).current matches Some(i) ==> 0 <= i < scan_step(
            s,
            line,
            next,
        ).refs.len(),
{
    let n = line.anchors.len();
    let q = line_text(line.raw);
    lemma_anchors_behind(r, s.refs, line, next, n);
    lemma_add_anchors(s.refs, line, next, n);
    let alone = add_anchors(s.refs, line, next, n);
    if n > 0 {
        let i = alone.1->Some_0;
        assert((r + alone.0)[i + r.len()] == alone.0[i]);
        assert(add_quote(r + alone.0, i + r.len(), passage(q)) =~= r + add_quote(
            alone.0,
            i,
            passage(q),
        ));
    } else if s.current is Some {
        let i = s.current->Some_0;
        assert((r + s.refs)[i + r.len()] == s.refs[i]);
        assert(add_quote(r + s.refs, i + r.len(), q) =~= r + add_quote(s.refs, i, q));
    }
}

proof fn lemma_scan_behind(x: Seq<LineModel>, y: Seq<LineModel>, n: nat)
    requires
        n <= y.len(),
        scan_sources(x + y, x.len()).current is None,
    ensures
        scan_sources(x + y, x.len() + n) == behind(
            scan_sources(x + y, x.len()).refs,
            scan_sources(y, n),
        ),
        scan_sources(y, n).current matches Some(i) ==> 0 <= i < scan_sources(y, n).refs.len(),
    decreases n,
{
    let r = scan_sources(x + y, x.len()).refs;
    if n == 0 {
        assert(behind(r, scan_sources(y, 0)).refs =~= r);
    } else {
        lemma_scan_behind(x, y, (n - 1) as nat);
        let s = scan_sources(y, (n - 1) as nat);
        assert((x + y)[x.len() + n - 1] == y[n - 1]);
        assert(line_after(x + y, x.len() + n - 1) == line_after(y, n - 1)) by {
            if n < y.len() {
                assert((x + y)[x.len() + n as int] == y[n as int]);
            }
        }
        lemma_step_behind(r, s, y[n - 1], line_after(y, n - 1));
    }
}

/// A line that gives a scan nothing and leaves it as it is: a blank one.
proof fn lemma_blank_line()
    ensures
        line_of(Seq::empty()).anchors.len() == 0,
        !is_quote(Seq::empty()),
        bare(Seq::empty()).len() == 0,
        label_in(Some(Seq::empty())) is None,
{
    reveal_strlit("<a");
    reveal_strlit("</a>");
    assert(trim_end(Seq::<char>::empty()).len() == 0);
    assert(trim_start(Seq::<char>::empty()).len() == 0);
    assert(line_text(Seq::empty()).len() == 0);
    lemma_first_of(line_text(Seq::empty()), "<a"@);
    lemma_first_of(Seq::empty(), "</a>"@);
}

proof fn lemma_return_dropped(raw: Seq<char>)
    ensures
        alike(line_of(raw), line_of(without_cr(raw))),
        label_in(Some(raw)) == label_in(Some(without_cr(raw))),
        is_quote(raw) == is_quote(without_cr(raw)),
        bare(raw) == bare(without_cr(raw)),
{
    lemma_without_cr(raw);
    assert(line_text(raw) == line_text(without_cr(raw)));
    if raw.len() > 0 && raw.last() == '\r' {
        lemma_closing_tag_before(raw);
    }
}

/// A carriage return at the end of a line does not move a closing tag on it.
proof fn lemma_closing_tag_before(raw: Seq<char>)
    requires
        raw.len() > 0,
        raw.last() == '\r',
    ensures
        first_of(raw.drop_last(), "</a>"@) == first_of(raw, "</a>"@),
        first_of(raw, "</a>"@) matches Some(i) ==> 0 <= i && raw.take(i) == raw.drop_last().take(i),
    decreases raw.len(),
{
    let tag = "</a>"@;
    let front = raw.drop_last();
    reveal_strlit("</a>");
    lemma_first_of(raw, tag);
    lemma_first_of(front, tag);
    assert(starts(raw, tag) == starts(front, tag)) by {
        if starts(raw, tag) {
            assert(raw.take(4)[3] == raw[3] && raw.take(4)[3] == tag[3]);
            assert(tag[3] == '>');
            if raw.len() == 4 {
                assert(raw[3] == raw.last());
            }
            assert(front.take(4) =~= raw.take(4));
        }
        if starts(front, tag) {
            assert(front.take(4) =~= raw.take(4));
        }
    }
    if !starts(raw, tag) {
        if raw.len() == 1 {
            assert(front.len() == 0);
            assert(raw.skip(1).len() == 0);
            lemma_first_of(raw.skip(1), tag);
        } else {
            lemma_closing_tag_before(raw.skip(1));
            assert(raw.skip(1).drop_last() =~= front.skip(1));
        }
    }
    if first_of(raw, tag) is Some {
        let i = first_of(raw, tag)->Some_0;
        assert(raw.take(i) =~= front.take(i));
    }
}

/// A line of prose: one line that is not blank, no blockquote, and without an
/// anchor.
pub open spec fn is_prose(line: Seq<char>) -> bool {
    &&& !line.contains('\n')
    &&& bare(line).len() > 0
    &&& !is_quote(line)
    &&& line_of(line).anchors.len() == 0
}

/// The lines of a text in which a line of prose stands between two texts.
proof fn lemma_parted_lines(a: Seq<char>, prose: Seq<char>, b: Seq<char>)
    requires
        !prose.contains('\n'),
        prose.len() > 0,
    ensures
        lines(a + "\n\n"@ + prose + "\n\n"@ + b) == lines(a.push('\n')) + seq![
            Seq::<char>::empty(),
            without_cr(prose),
            Seq::<char>::empty(),
        ] + lines(b),
{
    let all = a + "\n\n"@ + prose + "\n\n"@ + b;
    let empty = Seq::<char>::empty();
    let x = a.push('\n').push('\n');
    let y = prose.push('\n').push('\n');
    reveal_strlit("\n\n");
    assert("\n\n"@ =~= seq!['\n', '\n']);
    assert(all =~= x + (y + b));
    lemma_lines_parts(x, y + b);
    lemma_lines_parts(y, b);
    lemma_lines_break(a.push('\n'));
    lemma_lines_break(prose.push('\n'));
    lemma_lines_break(prose);
    lemma_until(prose, '\n');
    assert(prose.last() != '\n') by {
        assert(prose[prose.len() - 1] == prose.last());
    }
    assert(lines(prose) == seq![prose]);
    assert(lines(prose.push('\n')) =~= seq![without_cr(prose)]);
    assert(lines(all) =~= lines(a.push('\n')) + seq![empty, without_cr(prose), empty] + lines(b));
}

/// The lines of a text up to its end, with the last one ended, give a scan
/// what the lines of the text give.
proof fn lemma_ended_lines(a: Seq<char>, more: Seq<LineModel>)
    requires
        more.len() > 0,
        more[0] == line_of(Seq::empty()),
    ensures
        ({
            let ended = source_lines(a.push('\n'));
            &&& scan_sources(ended + more, ended.len()) == scan_sources(
                source_lines(a),
                source_lines(a).len(),
            )
        }),
{
    let x = source_lines(a);
    let ended = source_lines(a.push('\n'));
    let all = ended + more;
    let n = x.len();
    let old = lines(a);
    let new = lines(a.push('\n'));
    let empty = Seq::<char>::empty();
    lemma_lines_break(a);
    lemma_blank_line();
    assert(n <= ended.len() <= n + 1);
    assert(ended.len() == n + 1 ==> new[n as int] == empty) by {
        if a.len() == 0 {
            assert(old.len() == 0);
        }
    }
    assert forall|i: int| 0 <= i < n implies alike(#[trigger] x[i], all[i]) && label_in(
        Some(x[i].raw),
    ) == label_in(Some(all[i].raw)) by {
        assert(all[i] == ended[i]);
        lemma_return_dropped(old[i]);
        assert(new[i] == old[i] || new[i] == without_cr(old[i]));
    }
    assert forall|i: int| 0 <= i < n implies label_in(#[trigger] line_after(x, i)) == label_in(
        line_after(all, i),
    ) by {
        if i + 1 < n {
            assert(alike(x[i + 1], all[i + 1]));
        } else {
            assert(all[n as int].raw == empty) by {
                if ended.len() == n + 1 {
                    assert(all[n as int] == ended[n as int]);
                }
            }
        }
    }
    lemma_scan_alike(x, all, n);
    if ended.len() == n + 1 {
        assert(all[n as int] == ended[n as int]);
        assert(all[n as int] == line_of(empty));
    }
}

/// A prose line ends every quote block: where one stands between two texts,
/// the sources are those of the first text followed by those of the second.
pub proof fn a_prose_line_parts_the_sources(a: Seq<char>, prose: Seq<char>, b: Seq<char>)
    requires
        is_prose(prose),
    ensures
        sources_in(a + "\n\n"@ + prose + "\n\n"@ + b) == sources_in(a) + sources_in(b),
{
    let all = a + "\n\n"@ + prose + "\n\n"@ + b;
    let empty = Seq::<char>::empty();
    let blank = line_of(empty);
    let line = line_of(without_cr(prose));
    assert(prose.len() > 0) by {
        if prose.len() == 0 {
            lemma_blank_line();
            assert(prose =~= empty);
        }
    }
    lemma_parted_lines(a, prose, b);
    let ended = source_lines(a.push('\n'));
    let x = ended + seq![blank, line, blank];
    let y = source_lines(b);
    let ls = source_lines(all);
    assert(ls =~= x + y);
    let more = seq![blank, line, blank] + y;
    assert(ls =~= ended + more);
    lemma_ended_lines(a, more);
    lemma_blank_line();
    lemma_return_dropped(prose);
    let k = ended.len();
    assert(ls[k as int] == blank && ls[(k + 1) as int] == line && ls[(k + 2) as int] == blank);
    assert(scan_sources(ls, k + 1) == scan_sources(ls, k));
    assert(scan_sources(ls, k + 2) == Scan { refs: scan_sources(ls, k).refs, current: None });
    assert(scan_sources(ls, k + 3) == scan_sources(ls, k + 2));
    assert(x.len() == k + 3);
    lemma_scan_behind(x, y, y.len());
}

proof fn lemma_citing_terms(all: Seq<TermModel>, url: Seq<char>)
    ensures
        forall|t: Seq<char>| #[trigger]
            citing_terms(all, url).contains(t) <==> exists|i: int|
                0 <= i < all.len() && (#[trigger] all[i]).term == t && cites(all[i], url),
        cited(all, url) <==> citing_terms(all, url).len() > 0,
    decreases all.len(),
{
    if all.len() > 0 {
        let front = all.drop_last();
        lemma_citing_terms(front, url);
        lemma_cited_next(all, all.len() - 1, url);
        assert(all.take(all.len() - 1) =~= front);
        assert(all.take(all.len() as int) =~= all);
        let list = citing_terms(all, url);
        assert forall|t: Seq<char>| #[trigger] list.contains(t) <==> exists|i: int|
            0 <= i < all.len() && (#[trigger] all[i]).term == t && cites(all[i], url) by {
            if cites(all.last(), url) {
                lemma_contains_last(list, t);
                assert(list.drop_last() =~= citing_terms(front, url));
            }
            if citing_terms(front, url).contains(t) {
                let i = choose|i: int|
                    0 <= i < front.len() && (#[trigger] front[i]).term == t && cites(front[i], url);
                assert(all[i] == front[i]);
            }
            if exists|i: int|
                0 <= i < all.len() && (#[trigger] all[i]).term == t && cites(all[i], url) {
                let i = choose|i: int|
                    0 <= i < all.len() && (#[trigger] all[i]).term == t && cites(all[i], url);
                if i < front.len() {
                    assert(front[i] == all[i]);
                }
            }
        }
    }
}

/// An entry names the terms that cite its URL, in order and each once, and
/// has a status for the quotes of each of them and of no other.
pub proof fn entries_name_who_cites(
    all: Seq<TermModel>,
    existing: Map<Seq<char>, EntryModel>,
    url: Seq<char>,
    term: Seq<char>,
)
    requires
        cited(all, url),
    ensures
        ({
            let entry = lock_of(all, existing)[url];
            &&& strictly_ascending(entry.cited_by)
            &&& entry.cited_by.contains(term) <==> exists|i: int|
                0 <= i < all.len() && (#[trigger] all[i]).term == term && cites(all[i], url)
            &&& entry.quotes.dom().contains(term) <==> entry.cited_by.contains(term)
            &&& entry.cited_by.len() > 0
        }),
{
    lemma_citing_terms(all, url);
    lemma_sorted_set(citing_terms(all, url));
    let list = citing_terms(all, url);
    assert(list.contains(list[0]));
    assert(sorted_set(list).contains(list[0]));
}

/// Rewriting the lock keeps what a fetch recorded for a URL that is still
/// cited, and the status of the quotes of a term that still cites it.
pub proof fn rewriting_keeps_fetch_results(
    all: Seq<TermModel>,
    existing: Map<Seq<char>, EntryModel>,
    url: Seq<char>,
    term: Seq<char>,
)
    requires
        cited(all, url),
        existing.dom().contains(url),
    ensures
        ({
            let entry = lock_of(all, existing)[url];
            let was = existing[url];
            &&& lock_of(all, existing).dom().contains(url)
            &&& entry.fetched_at == was.fetched_at
            &&& entry.status == was.status
            &&& entry.content_sha256 == was.content_sha256
            &&& entry.cited_by.contains(term) && was.quotes.dom().contains(term)
                ==> entry.quotes[term] == was.quotes[term]
            &&& was.archives.contains(term) ==> entry.archives.contains(term)
        }),
{
    lemma_append_new(written_pins(all, url), existing[url].archives);
}

/// Rewriting the lock drops what is no longer cited.
pub proof fn rewriting_drops_stale_entries(
    all: Seq<TermModel>,
    existing: Map<Seq<char>, EntryModel>,
    url: Seq<char>,
)
    ensures
        lock_of(all, existing).dom().contains(url) <==> cited(all, url),
{
}

proof fn lemma_written_pins(all: Seq<TermModel>, url: Seq<char>)
    ensures
        written_pins(all, url).no_duplicates(),
    decreases all.len(),
{
    if all.len() > 0 {
        lemma_written_pins(all.drop_last(), url);
        lemma_add_pins(written_pins(all.drop_last(), url), all.last().sources, url);
    }
}

proof fn lemma_add_pins(list: Seq<Seq<char>>, refs: Seq<SourceModel>, url: Seq<char>)
    requires
        list.no_duplicates(),
    ensures
        add_pins(list, refs, url).no_duplicates(),
    decreases refs.len(),
{
    if refs.len() > 0 {
        lemma_add_pins(list, refs.drop_last(), url);
        lemma_append_new(add_pins(list, refs.drop_last(), url), refs.last().archives);
    }
}

/// Rewriting the lock a second time changes nothing.
pub proof fn rewriting_twice_is_rewriting_once(
    all: Seq<TermModel>,
    existing: Map<Seq<char>, EntryModel>,
)
    ensures
        lock_of(all, lock_of(all, existing)) == lock_of(all, existing),
{
    let once = lock_of(all, existing);
    let twice = lock_of(all, once);
    assert forall|url: Seq<char>| #[trigger] once.dom().contains(url) implies twice[url]
        == once[url] by {
        let written = written_pins(all, url);
        lemma_written_pins(all, url);
        lemma_append_new_again(written, written);
        if existing.dom().contains(url) {
            lemma_append_new_again(written, existing[url].archives);
        }
        lemma_append_new(written, Seq::empty());
        assert(append_new(written, Seq::empty()) == written);
        assert(twice[url].quotes =~= once[url].quotes);
        assert(twice[url].archives =~= once[url].archives);
    }
    assert(twice =~= once);
}

}
