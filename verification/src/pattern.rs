//! The regular expressions of the node markup, and what matching them gives.

use vstd::prelude::*;

use crate::text::opt_text;

verus! {

/// `[text](./term.md)` and `[text](./term.md "relation")` links: group 2 is
/// the term, group 3 the optional title.
pub const NODE_LINK: &'static str =
    r#"\[([^\]]+)\]\(\./([a-z0-9_-]+)\.md(?:\s+"([^"]*)")?\)"#;

/// `href="http…"` anchors (group 1) and `[text](http…)` links (group 2).
pub const EXTERNAL_LINK: &'static str =
    r#"href="(https?://[^"\s]+)"|\]\((https?://[^)\s]+)\)"#;

/// Any `[text](target)` link: group 1 is the text.
pub const ANY_LINK: &'static str = r"\[([^\]]+)\]\([^)]*\)";

/// `](./term.md)`, `](./term.md#anchor)`, `](./term.md "title")`: the target
/// part of a node link, as term, anchor and title.
pub const NODE_LINK_TARGET: &'static str =
    r#"\]\(\./([a-z0-9_-]+)\.md(#[^)\s]*)?((?:\s+"[^"]*")?)\)"#;

/// `[text](./slug)`, `[text](./slug#anchor)`, `[text](./slug "title")`:
/// group 1 is the text, group 2 the slug, group 3 the rest.
pub const SUFFIXLESS_LINK: &'static str =
    r#"\[([^\]]*)\]\(\./([A-Za-z0-9_-]+)((?:#[^)\s"]*)?(?:\s+"[^"]*")?)\)"#;

/// An `<a href="http…">` anchor: group 1 is the URL.
pub const ANCHOR: &'static str = r#"<a\s+href="(https?://[^"\s]+)"[^>]*>"#;

/// An anchor with its label: group 1 is the label.
pub const LABEL: &'static str = r#"<a\s+href="https?://[^"\s]+"[^>]*>([^<]*)</a>"#;

/// A Wayback-style URL: group 1 is the timestamp, group 2 the page.
pub const ARCHIVED: &'static str = r"/(\d{4,14})(?:id_)?/(https?://.+)$";

/// An anchor at the start of a text: group 1 is the URL.
pub const LEADING_ANCHOR: &'static str = r#"^\s*<a\s+href="([^"\s]+)"[^>]*>[^<]*</a>"#;

/// The timestamp of a snapshot URL: group 1 is its date.
pub const SNAPSHOT_DATE: &'static str = r"/(\d{8})\d{0,6}(?:id_)?/https?://";

/// The place in a snapshot URL where `id_` goes: between the groups.
pub const SNAPSHOT_STAMP: &'static str = r"(/\d{4,14})/(https?://)";

/// A reference marker inside a passage, such as `[1]` or `[citation needed]`.
pub const REFERENCE_MARKER: &'static str =
    r"(?i)\[\s*(?:\d{1,3}|[a-z]{1,2}|note \d{1,3}|citation needed|clarification needed|dubious|verification needed|(?:when|who|which|where|why)\?)\s*\]";

/// A script, style or noscript element.
pub const SCRIPT_BLOCK: &'static str =
    r"(?is)<(script|style|noscript)[^>]*>.*?</(script|style|noscript)\s*>";

/// A `<sup class="reference">` element.
pub const REFERENCE_BLOCK: &'static str =
    r#"(?is)<sup[^>]*class="[^"]*\breference\b[^"]*"[^>]*>.*?</sup\s*>"#;

/// Any tag.
pub const TAG: &'static str = r"(?s)<[^>]+>";

/// The patterns above, all of which compile.
pub open spec fn is_pattern(p: Seq<char>) -> bool {
    ||| p == NODE_LINK@
    ||| p == EXTERNAL_LINK@
    ||| p == ANY_LINK@
    ||| p == NODE_LINK_TARGET@
    ||| p == SUFFIXLESS_LINK@
    ||| p == ANCHOR@
    ||| p == LABEL@
    ||| p == ARCHIVED@
    ||| p == LEADING_ANCHOR@
    ||| p == SNAPSHOT_DATE@
    ||| p == SNAPSHOT_STAMP@
    ||| p == REFERENCE_MARKER@
    ||| p == SCRIPT_BLOCK@
    ||| p == REFERENCE_BLOCK@
    ||| p == TAG@
}

/// One match of a pattern: the text between the match before (or the start)
/// and this one, and the capture groups, group 0 being the whole match.
pub struct Found {
    pub before: String,
    pub groups: Vec<Option<String>>,
}

/// What a match is made of.
pub struct Hit {
    pub before: Seq<char>,
    pub groups: Seq<Option<Seq<char>>>,
}

impl View for Found {
    type V = Hit;

    open spec fn view(&self) -> Hit {
        Hit {
            before: self.before@,
            groups: Seq::new(self.groups@.len(), |i: int| opt_text(self.groups@[i])),
        }
    }
}

/// All matches of a pattern in a text, and the text after the last of them.
pub struct Matches {
    pub found: Vec<Found>,
    pub rest: String,
}

/// The hits of a list of matches.
pub open spec fn hits(found: Seq<Found>) -> Seq<Hit> {
    Seq::new(found.len(), |i: int| found[i]@)
}

impl View for Matches {
    type V = (Seq<Hit>, Seq<char>);

    open spec fn view(&self) -> (Seq<Hit>, Seq<char>) {
        (hits(self.found@), self.rest@)
    }
}

/// The matches that the `regex` crate finds for a pattern in a text.
pub uninterp spec fn regex_matches(pattern: Seq<char>, text: Seq<char>) -> (Seq<Hit>, Seq<char>);

/// The text of a capture group; empty when the group took no part.
pub open spec fn group(h: Hit, i: int) -> Seq<char> {
    if 0 <= i < h.groups.len() && h.groups[i] is Some {
        h.groups[i]->Some_0
    } else {
        Seq::empty()
    }
}

/// Whether a capture group took part in the match.
pub open spec fn has_group(h: Hit, i: int) -> bool {
    0 <= i < h.groups.len() && h.groups[i] is Some
}

/// A text with its matches replaced: what stands before each match, the
/// replacement for the match, and at the end the rest.
pub open spec fn rewrite(
    hits: Seq<Hit>,
    rest: Seq<char>,
    render: spec_fn(Hit) -> Seq<char>,
) -> Seq<char> {
    rewrite_hits(hits, render) + rest
}

/// The part of a rewritten text up to the end of the last match.
pub open spec fn rewrite_hits(hits: Seq<Hit>, render: spec_fn(Hit) -> Seq<char>) -> Seq<char>
    decreases hits.len(),
{
    if hits.len() == 0 {
        Seq::empty()
    } else {
        rewrite_hits(hits.drop_last(), render) + hits.last().before + render(hits.last())
    }
}

/// Replacements that agree on every match give the same text.
pub proof fn lemma_rewrite_same(
    hits: Seq<Hit>,
    a: spec_fn(Hit) -> Seq<char>,
    b: spec_fn(Hit) -> Seq<char>,
)
    requires
        forall|i: int| 0 <= i < hits.len() ==> a(#[trigger] hits[i]) == b(hits[i]),
    ensures
        rewrite_hits(hits, a) == rewrite_hits(hits, b),
    decreases hits.len(),
{
    if hits.len() > 0 {
        let front = hits.drop_last();
        assert forall|i: int| 0 <= i < front.len() implies a(#[trigger] front[i]) == b(front[i]) by {
            assert(front[i] == hits[i]);
        }
        lemma_rewrite_same(front, a, b);
        assert(a(hits[hits.len() - 1]) == b(hits[hits.len() - 1]));
    }
}

/// The first match and what stands before it begin the text.
pub proof fn lemma_first_hit(hits: Seq<Hit>, rest: Seq<char>)
    requires
        hits.len() > 0,
    ensures
        ({
            let text = rewrite(hits, rest, |h: Hit| group(h, 0));
            let n = hits[0].before.len() + group(hits[0], 0).len();
            n <= text.len() && text.take(n as int) == hits[0].before + group(hits[0], 0)
        }),
    decreases hits.len(),
{
    let whole = |h: Hit| group(h, 0);
    let n = hits[0].before.len() + group(hits[0], 0).len();
    let text = rewrite(hits, rest, whole);
    if hits.len() == 1 {
        assert(rewrite_hits(hits.drop_last(), whole) =~= Seq::<char>::empty());
        assert(text.take(n as int) =~= hits[0].before + group(hits[0], 0));
    } else {
        lemma_first_hit(hits.drop_last(), Seq::empty());
        let front = rewrite(hits.drop_last(), Seq::empty(), whole);
        assert(front =~= rewrite_hits(hits.drop_last(), whole));
        assert(text.take(n as int) =~= front.take(n as int));
    }
}

/// All matches of `pattern` in `text`, in order and without overlap.
///
/// `regex::Regex::captures_iter`, on a pattern compiled by `regex::Regex::new`.
/// The result depends on the pattern and the text alone. The matches stand in
/// the text in this order with the given texts between them, so that with each
/// match left as it is the parts make up the text again.
#[verifier::external_body]
pub(crate) fn find_matches(pattern: &str, text: &str) -> (r: Matches)
    requires
        is_pattern(pattern@),
    ensures
        r@ == regex_matches(pattern@, text@),
        rewrite(r@.0, r@.1, |h: Hit| group(h, 0)) == text@,
{
    let re = regex::Regex::new(pattern).unwrap();
    let mut found = Vec::new();
    let mut at: usize = 0;
    for cap in re.captures_iter(text) {
        let whole = cap.get(0).unwrap();
        let before = text[at..whole.start()].to_string();
        let groups = cap.iter().map(|g| g.map(|m| m.as_str().to_string())).collect();
        found.push(Found { before, groups });
        at = whole.end();
    }
    Matches { found, rest: text[at..].to_string() }
}

/// The text of a capture group of a match.
pub fn group_text(f: &Found, i: usize) -> (r: String)
    ensures
        r@ == group(f@, i as int),
{
    if i < f.groups.len() {
        match &f.groups[i] {
            Some(s) => s.clone(),
            None => String::new(),
        }
    } else {
        String::new()
    }
}

/// Whether a capture group of a match took part.
pub fn group_present(f: &Found, i: usize) -> (r: bool)
    ensures
        r == has_group(f@, i as int),
{
    i < f.groups.len() && f.groups[i].is_some()
}

}
