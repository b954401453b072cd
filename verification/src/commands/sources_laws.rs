//! What the sources of a node are, and what the lock says of them.

use vstd::prelude::*;

use crate::commands::semantic_laws::{first_file, lemma_file_of};
use crate::commands::sources::{
    add_anchor, add_pins, anchor_total, citing_total, entry_of, file_of, is_quote, label_for,
    line_of, line_text, listed, listing, original, page_key, passage, quote_count, quote_total,
    scan_step, source_text, source_texts, sources_in, sources_of_files, term_text, term_texts,
    lock_of_a_term, unknown_term, written, written_pins, AnchorModel, EntryModel,
    LabelModel, LineModel, Scan, SourceModel, TermModel,
};
use crate::markdown::FileModel;
use crate::number::decimal;
use crate::pattern::{group, regex_matches};
use crate::text::{
    ends, first_of, has, is_white_space, last_of, lemma_append_new, starts, strip_leading,
    strip_prefixes, strip_trailing, trim, trim_end, trim_start,
};

verus! {

// ---------------------------------------------------------------------------
// Pages
// ---------------------------------------------------------------------------

proof fn lemma_begins_with(p: Seq<char>, u: Seq<char>)
    ensures
        starts(p + u, p),
        (p + u).skip(p.len() as int) == u,
{
    assert((p + u).take(p.len() as int) =~= p);
    assert((p + u).skip(p.len() as int) =~= u);
}

/// A URL without a scheme, without a port of 80 and without a slash at its
/// end is its own page; and a scheme of the web before it, or slashes behind
/// it, make no other page of it.
pub proof fn a_page_goes_by_host_and_path(u: Seq<char>)
    requires
        !starts(u, "http"@),
        !(has(u, ":80/"@)),
        u.len() > 0,
        u.last() != '/',
    ensures
        page_key(u) == u,
        page_key("http://"@ + u) == u,
        page_key("https://"@ + u) == u,
{
    reveal_strlit("http");
    reveal_strlit("http://");
    reveal_strlit("https://");
    reveal_strlit("/");
    let h = "http://"@;
    let s = "https://"@;
    if starts(u, h) {
        assert(u.take(4) =~= u.take(7).take(4));
        assert(u.take(4) =~= "http"@);
    }
    if starts(u, s) {
        assert(u.take(4) =~= u.take(8).take(4));
        assert(u.take(4) =~= "http"@);
    }
    assert(strip_prefixes(u, s) == u);
    assert(strip_prefixes(u, h) == u);
    lemma_begins_with(h, u);
    lemma_begins_with(s, u);
    assert(strip_prefixes(s + u, s) == u);
    assert(strip_prefixes(h + u, h) == u);
    assert(!starts(h + u, s)) by {
        if starts(h + u, s) {
            assert((h + u).take(8)[4] == (h + u)[4]);
        }
    }
    assert(strip_prefixes(h + u, s) == h + u);
    assert(!"/"@.contains(u.last()));
    assert(strip_trailing(u, "/"@) == u);
}

/// A port of 80 before the path makes no other page of it.
pub proof fn a_plain_port_makes_no_other_page(host: Seq<char>, path: Seq<char>)
    requires
        forall|i: int| 0 <= i < host.len() ==> host[i] != ':' && host[i] != '/',
        !(has(host + "/"@ + path, ":80/"@)),
    ensures
        page_key(host + ":80/"@ + path) == page_key(host + "/"@ + path),
{
    reveal_strlit("http://");
    reveal_strlit("https://");
    reveal_strlit(":80/");
    reveal_strlit("/");
    let a = host + ":80/"@ + path;
    let b = host + "/"@ + path;
    lemma_no_scheme(host, ":80/"@ + path);
    lemma_no_scheme(host, "/"@ + path);
    assert(a =~= host + (":80/"@ + path));
    assert(b =~= host + ("/"@ + path));
    assert(strip_prefixes(a, "https://"@) == a && strip_prefixes(a, "http://"@) == a);
    assert(strip_prefixes(b, "https://"@) == b && strip_prefixes(b, "http://"@) == b);
    lemma_first_port(host, path);
    assert(a.take(host.len() as int) =~= host);
    assert(a.skip((host.len() + 4) as int) =~= path);
}

proof fn lemma_no_scheme(host: Seq<char>, rest: Seq<char>)
    requires
        forall|i: int| 0 <= i < host.len() ==> host[i] != ':' && host[i] != '/',
        rest.len() > 0,
        rest[0] == ':' && (rest.len() < 3 || rest[1] != '/') || rest[0] == '/',
    ensures
        !starts(host + rest, "http://"@),
        !starts(host + rest, "https://"@),
{
    reveal_strlit("http://");
    reveal_strlit("https://");
    let s = host + rest;
    let n = host.len() as int;
    assert(s[n] == rest[0]);
    if starts(s, "http://"@) {
        assert(s.take(7)[4] == s[4] && s.take(7)[5] == s[5]);
        if n < 4 {
            assert(s.take(7)[n] == s[n]);
        } else if n == 4 {
            assert(rest[1] == s[5]);
        } else {
            assert(s[4] == host[4]);
        }
    }
    if starts(s, "https://"@) {
        assert(s.take(8)[5] == s[5] && s.take(8)[6] == s[6]);
        if n < 5 {
            assert(s.take(8)[n] == s[n]);
        } else if n == 5 {
            assert(rest[1] == s[6]);
        } else {
            assert(s[5] == host[5]);
        }
    }
}

proof fn lemma_first_port(host: Seq<char>, path: Seq<char>)
    requires
        forall|i: int| 0 <= i < host.len() ==> host[i] != ':' && host[i] != '/',
    ensures
        first_of(host + ":80/"@ + path, ":80/"@) == Some(host.len() as int),
    decreases host.len(),
{
    reveal_strlit(":80/");
    let p = ":80/"@;
    let s = host + p + path;
    if host.len() == 0 {
        assert(s.take(4) =~= p);
    } else {
        if starts(s, p) {
            assert(s.take(4)[0] == host[0]);
        }
        let rest = host.skip(1);
        assert(s.skip(1) =~= rest + p + path);
        assert forall|i: int| 0 <= i < rest.len() implies rest[i] != ':' && rest[i] != '/' by {
            assert(rest[i] == host[i + 1]);
        }
        lemma_first_port(rest, path);
    }
}

/// The page that an archived copy is of stands behind a time stamp in its
/// URL.
pub proof fn an_archived_copy_names_its_page(url: Seq<char>)
    ensures
        ({
            let found = regex_matches(r"/(\d{4,14})(?:id_)?/(https?://.+)$"@, url).0;
            &&& found.len() == 0 ==> original(url) is None
            &&& found.len() > 0 ==> original(url) == Some(group(found[0], 2))
        }),
{
}

// ---------------------------------------------------------------------------
// Lines
// ---------------------------------------------------------------------------

/// The anchors of a line are the matches of `<a href="http…">` in its text,
/// and its labels are those of the anchors that close on it.
pub proof fn anchors_are_read_from_their_markup(raw: Seq<char>, i: int)
    ensures
        ({
            let text = line_text(raw);
            let line = line_of(raw);
            let found = regex_matches(r#"<a\s+href="(https?://[^"\s]+)"[^>]*>"#@, text).0;
            let labels = regex_matches(
                r#"<a\s+href="https?://[^"\s]+"[^>]*>([^<]*)</a>"#@,
                text,
            ).0;
            &&& line.raw == raw
            &&& !(has(text, "<a"@)) ==> line.anchors.len() == 0 && line.labels.len() == 0
            &&& has(text, "<a"@) ==> line.anchors.len() == found.len() && line.labels.len()
                == labels.len()
            &&& 0 <= i < line.anchors.len() ==> line.anchors[i].url == group(found[i], 1)
                && line.anchors[i].original == original(group(found[i], 1))
            &&& 0 <= i < line.labels.len() ==> line.labels[i].whole == group(labels[i], 0)
                && line.labels[i].label == group(labels[i], 1)
        }),
{
}

/// A blockquote line is one that begins, after white space, with `>`; its
/// text is what stands behind that, without white space around it. Any other
/// line is its own text but for white space at its end.
pub proof fn a_blockquote_holds_what_it_quotes(raw: Seq<char>)
    ensures
        is_quote(raw) <==> trim_start(trim_end(raw)).len() > 0 && trim_start(trim_end(raw))[0]
            == '>',
        is_quote(raw) ==> line_text(raw) == trim(trim_start(trim_end(raw)).skip(1)),
        !is_quote(raw) ==> line_text(raw) == trim_end(raw),
{
}

proof fn lemma_last_tag(a: Seq<char>, rest: Seq<char>)
    requires
        forall|i: int| 0 <= i < rest.len() ==> rest[i] != '<',
    ensures
        last_of(a + "</a>"@ + rest, "</a>"@) == Some(a.len() as int),
    decreases rest.len(),
{
    reveal_strlit("</a>");
    let tag = "</a>"@;
    let s = a + tag + rest;
    let r = rest.len() as int;
    if r == 0 {
        assert(s.skip(s.len() - 4) =~= tag);
    } else {
        if ends(s, tag) {
            assert(s.skip(s.len() - 4)[0] == s[s.len() - 4]);
            assert(s.len() - 4 == a.len() + r);
            if r < 4 {
                assert(s[a.len() + r] == tag[r]);
            } else {
                assert(s[a.len() + r] == rest[r - 4]);
            }
        }
        let front = rest.drop_last();
        assert(s.drop_last() =~= a + tag + front);
        assert forall|i: int| 0 <= i < front.len() implies front[i] != '<' by {
            assert(front[i] == rest[i]);
        }
        lemma_last_tag(a, front);
    }
}

/// A mark that parts an anchor from the passage behind it.
pub open spec fn parts_passage(c: char) -> bool {
    c == ':' || c == ' ' || c == '\u{a0}' || c == '—' || c == '-'
}

proof fn lemma_strip_marks(sep: Seq<char>, t: Seq<char>)
    requires
        forall|i: int| 0 <= i < sep.len() ==> parts_passage(#[trigger] sep[i]),
        t.len() > 0,
        !parts_passage(t[0]),
    ensures
        strip_leading(sep + t, ": \u{a0}—-"@) == t,
    decreases sep.len(),
{
    reveal_strlit(": \u{a0}—-");
    let set = ": \u{a0}—-"@;
    assert(set.len() == 5);
    assert(set[0] == ':' && set[1] == ' ' && set[2] == '\u{a0}' && set[3] == '—' && set[4] == '-');
    let s = sep + t;
    if sep.len() == 0 {
        assert(s =~= t);
        if set.contains(t[0]) {
            let k = choose|k: int| 0 <= k < set.len() && set[k] == t[0];
            assert(0 <= k < 5);
        }
    } else {
        assert(parts_passage(sep[0]));
        assert(s[0] == sep[0]);
        assert(set.contains(s[0]));
        let rest = sep.skip(1);
        assert(s.skip(1) =~= rest + t);
        assert forall|i: int| 0 <= i < rest.len() implies parts_passage(#[trigger] rest[i]) by {
            assert(rest[i] == sep[i + 1]);
        }
        lemma_strip_marks(rest, t);
    }
}

/// The passage of an inline source is what stands behind its last anchor and
/// the marks that part them, without white space around it.
pub proof fn a_passage_stands_behind_the_anchors(a: Seq<char>, sep: Seq<char>, t: Seq<char>)
    requires
        forall|i: int| 0 <= i < sep.len() ==> parts_passage(#[trigger] sep[i]),
        forall|i: int| 0 <= i < t.len() ==> t[i] != '<',
        t.len() > 0,
        !parts_passage(t[0]),
        !is_white_space(t[0]),
        !is_white_space(t.last()),
    ensures
        passage(a + "</a>"@ + sep + t) == t,
{
    let q = a + "</a>"@ + sep + t;
    let rest = sep + t;
    reveal_strlit("</a>");
    assert(q =~= a + "</a>"@ + rest);
    assert forall|i: int| 0 <= i < rest.len() implies rest[i] != '<' by {
        if i < sep.len() {
            assert(parts_passage(sep[i]));
            assert(rest[i] == sep[i]);
        } else {
            assert(rest[i] == t[i - sep.len()]);
        }
    }
    lemma_last_tag(a, rest);
    assert(q.skip((a.len() + 4) as int) =~= rest);
    lemma_strip_marks(sep, t);
    assert(trim(t) == t);
}

/// The label of a URL is that of the first anchor, of those that close on
/// the line, whose markup holds the URL.
pub proof fn a_label_is_that_of_its_anchor(labels: Seq<LabelModel>, url: Seq<char>, i: int)
    requires
        0 <= i < labels.len(),
        has(labels[i].whole, url),
        forall|j: int| 0 <= j < i ==> !(has((#[trigger] labels[j]).whole, url)),
    ensures
        label_for(labels, url) == trim(labels[i].label),
    decreases labels.len(),
{
    if i > 0 {
        assert(!(has(labels[0].whole, url)));
        let rest = labels.skip(1);
        assert(rest[i - 1] == labels[i]);
        assert forall|j: int| 0 <= j < i - 1 implies !(has((#[trigger] rest[j]).whole, url)) by {
            assert(rest[j] == labels[j + 1]);
        }
        a_label_is_that_of_its_anchor(rest, url, i - 1);
    }
}

/// An anchor that is an archived copy of the page of the source right before
/// it on its line is a pin of that source; any other is a source of its own,
/// without quotes and pins.
pub proof fn a_copy_beside_its_page_is_a_pin(
    refs: Seq<SourceModel>,
    last: Option<int>,
    a: AnchorModel,
    label: Seq<char>,
)
    requires
        last matches Some(i) ==> 0 <= i < refs.len(),
    ensures
        ({
            let copy = last is Some && a.original is Some && page_key(
                refs[last->Some_0].url,
            ) == page_key(a.original->Some_0);
            let (now, at) = add_anchor(refs, last, a, label);
            &&& copy ==> {
                let i = last->Some_0;
                &&& at == last
                &&& now.len() == refs.len()
                &&& now[i].archives == refs[i].archives.push(a.url)
                &&& now[i].url == refs[i].url && now[i].label == refs[i].label && now[i].quotes
                    == refs[i].quotes
                &&& forall|k: int| 0 <= k < refs.len() && k != i ==> #[trigger] now[k] == refs[k]
            }
            &&& !copy ==> {
                &&& at == Some(refs.len() as int)
                &&& now.len() == refs.len() + 1
                &&& now.last().url == a.url
                &&& now.last().label == label
                &&& now.last().quotes.len() == 0
                &&& now.last().archives.len() == 0
                &&& forall|k: int| 0 <= k < refs.len() ==> #[trigger] now[k] == refs[k]
            }
        }),
{
}

/// What a line without an anchor does: a blank line nothing; a blockquote
/// line with a heading or nothing on it nothing; any other blockquote line
/// adds its text to the quotes of the source that collects, if one does; and
/// any other line ends the collecting.
pub proof fn lines_without_anchors_quote_or_part(
    s: Scan,
    line: LineModel,
    next: Option<Seq<char>>,
)
    requires
        line.anchors.len() == 0,
        s.current matches Some(i) ==> 0 <= i < s.refs.len(),
    ensures
        ({
            let q = line_text(line.raw);
            let now = scan_step(s, line, next);
            &&& trim_start(trim_end(line.raw)).len() == 0 ==> now == s
            &&& is_quote(line.raw) && (q.len() == 0 || q[0] == '#') ==> now == s
            &&& is_quote(line.raw) && q.len() > 0 && q[0] != '#' && s.current is None ==> now == s
            &&& is_quote(line.raw) && q.len() > 0 && q[0] != '#' ==> (s.current matches Some(i)
                ==> {
                &&& now.current == s.current
                &&& now.refs.len() == s.refs.len()
                &&& now.refs[i].quotes == s.refs[i].quotes.push(q)
                &&& now.refs[i].url == s.refs[i].url
                &&& forall|k: int|
                    0 <= k < s.refs.len() && k != i ==> #[trigger] now.refs[k] == s.refs[k]
            })
            &&& trim_start(trim_end(line.raw)).len() > 0 && !is_quote(line.raw) ==> now.refs
                == s.refs && now.current is None
        }),
{
}

// ---------------------------------------------------------------------------
// The lock
// ---------------------------------------------------------------------------

/// A source of a list has the URL and pins the snapshot.
pub open spec fn pinned_by(refs: Seq<SourceModel>, url: Seq<char>, pin: Seq<char>) -> bool {
    exists|j: int|
        0 <= j < refs.len() && (#[trigger] refs[j]).url == url && refs[j].archives.contains(pin)
}

proof fn lemma_pins_of(
    list: Seq<Seq<char>>,
    refs: Seq<SourceModel>,
    url: Seq<char>,
    pin: Seq<char>,
)
    ensures
        add_pins(list, refs, url).contains(pin) <==> list.contains(pin) || pinned_by(
            refs,
            url,
            pin,
        ),
    decreases refs.len(),
{
    if refs.len() > 0 {
        let front = refs.drop_last();
        let last = refs.last();
        lemma_pins_of(list, front, url, pin);
        if pinned_by(front, url, pin) {
            let j = choose|j: int|
                0 <= j < front.len() && (#[trigger] front[j]).url == url
                    && front[j].archives.contains(pin);
            assert(refs[j] == front[j]);
        }
        if pinned_by(refs, url, pin) {
            let j = choose|j: int|
                0 <= j < refs.len() && (#[trigger] refs[j]).url == url
                    && refs[j].archives.contains(pin);
            if j < front.len() {
                assert(front[j] == refs[j]);
            }
        }
        if last.url == url {
            lemma_append_new(add_pins(list, front, url), last.archives);
            if last.archives.contains(pin) {
                assert(refs[refs.len() - 1] == last);
            }
        }
    }
}

proof fn lemma_written(all: Seq<TermModel>, url: Seq<char>, pin: Seq<char>)
    ensures
        written_pins(all, url).contains(pin) <==> exists|i: int|
            0 <= i < all.len() && pinned_by((#[trigger] all[i]).sources, url, pin),
    decreases all.len(),
{
    if all.len() > 0 {
        let front = all.drop_last();
        lemma_written(front, url, pin);
        lemma_pins_of(written_pins(front, url), all.last().sources, url, pin);
        if exists|i: int| 0 <= i < front.len() && pinned_by((#[trigger] front[i]).sources, url, pin) {
            let i = choose|i: int|
                0 <= i < front.len() && pinned_by((#[trigger] front[i]).sources, url, pin);
            assert(all[i] == front[i]);
        }
        if exists|i: int| 0 <= i < all.len() && pinned_by((#[trigger] all[i]).sources, url, pin) {
            let i = choose|i: int|
                0 <= i < all.len() && pinned_by((#[trigger] all[i]).sources, url, pin);
            if i < front.len() {
                assert(front[i] == all[i]);
            }
        }
        if pinned_by(all.last().sources, url, pin) {
            assert(all[all.len() - 1] == all.last());
        }
    }
}

/// An entry of the lock for a URL that no earlier lock had: nothing was
/// fetched, the quotes of every citing term are unchecked, and its snapshots
/// are just those that nodes pin beside the URL.
pub proof fn a_new_entry_is_unchecked(
    all: Seq<TermModel>,
    url: Seq<char>,
    term: Seq<char>,
    pin: Seq<char>,
)
    ensures
        ({
            let e = entry_of(all, None, url);
            &&& e.fetched_at is None
            &&& e.status is None
            &&& e.content_sha256 is None
            &&& e.cited_by.contains(term) ==> e.quotes[term] == "unchecked"@
            &&& e.archives.contains(pin) <==> exists|i: int|
                0 <= i < all.len() && pinned_by((#[trigger] all[i]).sources, url, pin)
        }),
{
    lemma_written(all, url, pin);
}

/// An entry that an earlier lock had keeps its snapshots behind those that
/// nodes pin now; a term that did not cite the URL before is unchecked.
pub proof fn an_entry_keeps_its_snapshots_behind(
    all: Seq<TermModel>,
    was: EntryModel,
    url: Seq<char>,
    term: Seq<char>,
    pin: Seq<char>,
)
    ensures
        ({
            let e = entry_of(all, Some(was), url);
            &&& written_pins(all, url).is_prefix_of(e.archives)
            &&& e.archives.contains(pin) <==> was.archives.contains(pin) || exists|i: int|
                0 <= i < all.len() && pinned_by((#[trigger] all[i]).sources, url, pin)
            &&& e.cited_by.contains(term) && !was.quotes.dom().contains(term) ==> e.quotes[term]
                == "unchecked"@
        }),
{
    lemma_written(all, url, pin);
    lemma_append_new(written_pins(all, url), was.archives);
}

// ---------------------------------------------------------------------------
// Listings
// ---------------------------------------------------------------------------

/// A listing covers every node, or the first file of the term asked for; a
/// term without a file is unknown.
pub proof fn a_listing_covers_what_is_asked_for(all: Seq<FileModel>, t: Seq<char>, k: int)
    ensures
        listed(all, None) == Some(all),
        first_file(all, t, k) ==> listed(all, Some(t)) == Some(seq![all[k]]),
        (forall|i: int| 0 <= i < all.len() ==> (#[trigger] all[i]).term != t) ==> listed(
            all,
            Some(t),
        ) is None,
{
    lemma_file_of(all, t);
    if let Some(f) = file_of(all, t) {
        let m = choose|m: int| #[trigger] first_file(all, t, m) && all[m] == f;
        if first_file(all, t, k) {
            if m < k {
                assert(all[m].term != t);
            }
            if k < m {
                assert(all[k].term != t);
            }
        }
    }
}

/// The totals of a listing: each further term adds its sources, the quotes of
/// its sources, and one citing term if it has a source.
pub proof fn totals_add_up(all: Seq<TermModel>, t: TermModel, refs: Seq<SourceModel>, s: SourceModel)
    ensures
        anchor_total(Seq::empty()) == 0,
        quote_total(Seq::empty()) == 0,
        citing_total(Seq::empty()) == 0,
        quote_count(Seq::empty()) == 0,
        anchor_total(all.push(t)) == anchor_total(all) + t.sources.len(),
        quote_total(all.push(t)) == quote_total(all) + quote_count(t.sources),
        citing_total(all.push(t)) == citing_total(all) + (if t.sources.len() > 0 {
            1int
        } else {
            0int
        }),
        quote_count(refs.push(s)) == quote_count(refs) + s.quotes.len(),
{
    assert(all.push(t).drop_last() =~= all);
    assert(refs.push(s).drop_last() =~= refs);
}

proof fn lemma_terms_front(a: Seq<TermModel>, b: Seq<TermModel>, n: nat)
    requires
        n <= a.len(),
        n <= b.len(),
        forall|i: int| 0 <= i < n ==> a[i] == b[i],
    ensures
        term_texts(a, n) == term_texts(b, n),
    decreases n,
{
    if n > 0 {
        lemma_terms_front(a, b, (n - 1) as nat);
    }
}

/// A listing ends with its totals, and a term that cites nothing has no line
/// in it.
pub proof fn a_listing_ends_with_its_totals(all: Seq<TermModel>, t: TermModel)
    ensures
        listing(all) == term_texts(all, all.len()) + decimal(anchor_total(all))
            + " anchor(s) in "@ + decimal(citing_total(all)) + " of "@ + decimal(all.len())
            + " term(s), "@ + decimal(quote_total(all)) + " quote(s)\n"@,
        term_texts(all.push(t), all.len() + 1) == term_texts(all, all.len()) + term_text(t),
        t.sources.len() == 0 ==> term_text(t).len() == 0,
        t.sources.len() > 0 ==> starts(
            term_text(t),
            t.term + " ("@ + decimal(t.sources.len()) + " source(s))\n"@,
        ),
{
    lemma_terms_front(all, all.push(t), all.len());
    assert(all.push(t)[all.len() as int] == t);
    if t.sources.len() > 0 {
        let p = t.term + " ("@ + decimal(t.sources.len()) + " source(s))\n"@;
        assert(term_text(t).take(p.len() as int) =~= p);
    }
}

/// The line of a source: its URL, its label if it has one, and the number of
/// its quotes.
pub proof fn a_line_tells_a_source(s: SourceModel)
    ensures
        s.label.len() > 0 ==> source_text(s) == "  "@ + s.url + (" — "@ + s.label) + " — "@
            + decimal(s.quotes.len()) + " quote(s)\n"@,
        s.label.len() == 0 ==> source_text(s) == "  "@ + s.url + Seq::<char>::empty() + " — "@
            + decimal(s.quotes.len()) + " quote(s)\n"@,
{
}

proof fn lemma_source_texts_more(refs: Seq<SourceModel>, s: SourceModel, n: nat)
    requires
        n <= refs.len(),
    ensures
        source_texts(refs.push(s), n) == source_texts(refs, n),
    decreases n,
{
    if n > 0 {
        lemma_source_texts_more(refs, s, (n - 1) as nat);
    }
}

/// A term that cites nothing is not listed; one that does has a line with its
/// name and how many sources it cites, and then the line of each source.
pub proof fn a_term_is_listed_with_its_sources(
    t: TermModel,
    refs: Seq<SourceModel>,
    s: SourceModel,
)
    ensures
        t.sources.len() == 0 ==> term_text(t) == Seq::<char>::empty(),
        t.sources.len() > 0 ==> term_text(t) == t.term + " ("@ + decimal(t.sources.len())
            + " source(s))\n"@ + source_texts(t.sources, t.sources.len()),
        source_texts(Seq::empty(), 0) == Seq::<char>::empty(),
        source_texts(refs.push(s), refs.len() + 1) == source_texts(refs, refs.len()) + source_text(
            s,
        ),
{
    lemma_source_texts_more(refs, s, refs.len());
}

/// A lock that was written is told with its URLs, the anchors and the terms
/// it was made from, their quotes, and where it stands.
pub proof fn a_written_lock_is_told(all: Seq<TermModel>, urls: nat, path: Seq<char>)
    ensures
        written(all, urls, path) == "sources: "@ + decimal(urls) + " url(s) from "@ + decimal(
            anchor_total(all),
        ) + " anchor(s) in "@ + decimal(all.len()) + " term(s) ("@ + decimal(quote_total(all))
            + " quote(s)) written to "@ + path,
{
}

/// What a node cites goes by its own text and name.
pub proof fn every_node_has_its_sources(all: Seq<FileModel>, i: int)
    requires
        0 <= i < all.len(),
    ensures
        sources_of_files(all).len() == all.len(),
        sources_of_files(all)[i].term == all[i].term,
        sources_of_files(all)[i].sources == sources_in(all[i].content),
{
}

/// A term without a node and a lock of one term are refused in these words.
pub proof fn a_refused_listing_says_why(term: Seq<char>)
    ensures
        unknown_term(term) == "Term '"@ + term + "' not found"@,
        lock_of_a_term() == "--lock covers the whole ontology; drop the term argument"@,
{
}

}
